use vstd::prelude::*;

verus! {

/// The character of decimal digit `d` (`d < 10`).
pub open spec fn digit_char(d: nat) -> char {
    ((48 + d) as u8) as char
}

/// The decimal digits of `n`, most significant first, without leading zeros.
pub open spec fn decimal(n: nat) -> Seq<char>
    decreases n,
{
    if n < 10 {
        seq![digit_char(n)]
    } else {
        decimal(n / 10).push(digit_char(n % 10))
    }
}

/// Appends the decimal digits of `n` to `s`.
pub fn push_decimal(s: &mut String, n: u64)
    ensures
        final(s)@ == old(s)@ + decimal(n as nat),
    decreases n,
{
    if n >= 10 {
        push_decimal(s, n / 10);
    }
    let d = ((n % 10) as u8 + 48u8) as char;
    string_push(s, d);
    proof {
        assert(final(s)@ =~= old(s)@ + decimal(n as nat));
    }
}

// ---------------------------------------------------------------------------
// Trimming white space
// ---------------------------------------------------------------------------

/// A byte whose character is white space: tab, line feed, vertical tab, form feed,
/// carriage return, space, next line (0x85) or no-break space (0xa0).
pub open spec fn is_space(b: u8) -> bool {
    b == 9 || b == 10 || b == 11 || b == 12 || b == 13 || b == 32 || b == 0x85 || b == 0xa0
}

/// `t` without its leading white space.
pub open spec fn trim_start(t: Seq<u8>) -> Seq<u8>
    decreases t.len(),
{
    if t.len() > 0 && is_space(t[0]) {
        trim_start(t.drop_first())
    } else {
        t
    }
}

/// `t` without its trailing white space.
pub open spec fn trim_end(t: Seq<u8>) -> Seq<u8>
    decreases t.len(),
{
    if t.len() > 0 && is_space(t.last()) {
        trim_end(t.drop_last())
    } else {
        t
    }
}

/// `t` without leading and trailing white space.
pub open spec fn trim(t: Seq<u8>) -> Seq<u8> {
    trim_end(trim_start(t))
}

/// `t` without leading and trailing white space.
pub fn trim_bytes(t: &[u8]) -> (r: Vec<u8>)
    ensures
        r@ == trim(t@),
{
    let n = t.len();
    let mut i: usize = 0;
    proof {
        assert(t@.subrange(0, n as int) =~= t@);
    }
    while i < n && is_space_byte(t[i])
        invariant
            n == t@.len(),
            i <= n,
            trim_start(t@) == trim_start(t@.subrange(i as int, n as int)),
        decreases n - i,
    {
        proof {
            assert(t@.subrange(i + 1, n as int) =~= t@.subrange(i as int, n as int).drop_first());
        }
        i += 1;
    }
    proof {
        assert(t@.subrange(0, n as int) =~= t@);
    }
    let ghost u = t@.subrange(i as int, n as int);
    assert(trim_start(t@) == u);
    let mut j: usize = n;
    while j > i && is_space_byte(t[j - 1])
        invariant
            n == t@.len(),
            i <= j <= n,
            u == t@.subrange(i as int, n as int),
            trim_end(u) == trim_end(t@.subrange(i as int, j as int)),
        decreases j,
    {
        proof {
            assert(t@.subrange(i as int, j - 1) =~= t@.subrange(i as int, j as int).drop_last());
        }
        j -= 1;
    }
    proof {
        assert(t@.subrange(i as int, n as int) =~= u);
    }
    let mut r: Vec<u8> = Vec::new();
    let mut k: usize = i;
    while k < j
        invariant
            i <= k <= j,
            j <= n,
            n == t@.len(),
            r@ == t@.subrange(i as int, k as int),
        decreases j - k,
    {
        r.push(t[k]);
        proof {
            assert(t@.subrange(i as int, k + 1) =~= t@.subrange(i as int, k as int).push(t@[k as int]));
        }
        k += 1;
    }
    r
}

/// `b` is white space.
fn is_space_byte(b: u8) -> (r: bool)
    ensures
        r == is_space(b),
{
    b == 9 || b == 10 || b == 11 || b == 12 || b == 13 || b == 32 || b == 0x85 || b == 0xa0
}

// ---------------------------------------------------------------------------
// Reading an `i32`
// ---------------------------------------------------------------------------

/// Every byte of `t` is an ASCII digit.
pub open spec fn all_digits(t: Seq<u8>) -> bool {
    forall|k: int| 0 <= k < t.len() ==> 48 <= #[trigger] t[k] <= 57
}

/// The number the decimal digits `t` write.
pub open spec fn digits_value(t: Seq<u8>) -> int
    decreases t.len(),
{
    if t.len() == 0 {
        0
    } else {
        digits_value(t.drop_last()) * 10 + (t.last() - 48)
    }
}

/// The `i32` that `t` writes in decimal: an optional `+` or `-`, then one digit or more,
/// in range; `None` for any other text.
pub open spec fn i32_of_text(t: Seq<u8>) -> Option<i32> {
    let signed = t.len() > 0 && (t[0] == 45 || t[0] == 43);
    let ds = if signed {
        t.drop_first()
    } else {
        t
    };
    let v = if signed && t[0] == 45 {
        -digits_value(ds)
    } else {
        digits_value(ds)
    };
    if ds.len() > 0 && all_digits(ds) && i32::MIN <= v <= i32::MAX {
        Some(v as i32)
    } else {
        None
    }
}

/// The `i32` that `t` writes in decimal (`str::parse::<i32>`'s grammar: an optional sign,
/// then digits, in range), or `None`.
pub fn parse_i32(t: &[u8]) -> (r: Option<i32>)
    ensures
        r == i32_of_text(t@),
{
    let n = t.len();
    if n == 0 {
        return None;
    }
    let signed = t[0] == 45 || t[0] == 43;
    let negative = t[0] == 45;
    let start: usize = if signed {
        1
    } else {
        0
    };
    let ghost ds = if signed {
        t@.drop_first()
    } else {
        t@
    };
    proof {
        assert(ds =~= t@.subrange(start as int, n as int));
    }
    if start == n {
        return None;
    }
    let mut v: i64 = 0;
    let mut i: usize = start;
    while i < n
        invariant
            n == t@.len(),
            n > 0,
            signed == (t@[0] == 45 || t@[0] == 43),
            negative == (t@[0] == 45),
            ds == (if signed {
                t@.drop_first()
            } else {
                t@
            }),
            start <= i <= n,
            ds == t@.subrange(start as int, n as int),
            all_digits(t@.subrange(start as int, i as int)),
            v == digits_value(t@.subrange(start as int, i as int)),
            0 <= v <= 0x8000_0000,
        decreases n - i,
    {
        let b = t[i];
        if b < 48 || b > 57 {
            proof {
                assert(ds[i - start] == b);
                assert(!all_digits(ds));
            }
            return None;
        }
        proof {
            assert(t@.subrange(start as int, i + 1).drop_last() =~= t@.subrange(
                start as int,
                i as int,
            ));
        }
        v = v * 10 + (b - 48) as i64;
        proof {
            assert(t@.subrange(start as int, i + 1).last() == b);
            assert(v == digits_value(t@.subrange(start as int, i + 1)));
            assert(all_digits(t@.subrange(start as int, i + 1))) by {
                assert forall|k: int| 0 <= k < i + 1 - start implies 48 <= #[trigger] t@.subrange(
                    start as int,
                    i + 1,
                )[k] <= 57 by {
                    if k < i - start {
                        assert(t@.subrange(start as int, i + 1)[k] == t@.subrange(
                            start as int,
                            i as int,
                        )[k]);
                    }
                }
            }
        }
        if v > 0x8000_0000 {
            proof {
                lemma_digits_grow(ds, (i + 1 - start) as nat);
                if all_digits(ds) {
                    assert(ds.subrange(0, (i + 1 - start) as int) =~= t@.subrange(
                        start as int,
                        i + 1,
                    ));
                    assert(digits_value(ds) > 0x8000_0000);
                }
            }
            return None;
        }
        i += 1;
    }
    proof {
        assert(t@.subrange(start as int, n as int) =~= ds);
    }
    let value = if negative {
        -v
    } else {
        v
    };
    if value < -0x8000_0000 || value > 0x7fff_ffff {
        None
    } else {
        Some(value as i32)
    }
}

/// Digits only add to the value: a prefix of digits writes at most what all of them write.
proof fn lemma_digits_grow(ds: Seq<u8>, k: nat)
    requires
        k <= ds.len(),
    ensures
        all_digits(ds) ==> digits_value(ds.subrange(0, k as int)) <= digits_value(ds),
    decreases ds.len() - k,
{
    if k == ds.len() {
        assert(ds.subrange(0, k as int) =~= ds);
    } else if all_digits(ds) {
        lemma_digits_grow(ds, k + 1);
        let a = ds.subrange(0, k as int);
        let b = ds.subrange(0, k + 1int);
        assert(b.drop_last() =~= a);
        assert(0 <= b.last() - 48);
        assert(digits_value(a) >= 0) by {
            lemma_digits_nonneg(a, ds, k);
        }
    }
}

/// Digits write a number that is not negative.
proof fn lemma_digits_nonneg(a: Seq<u8>, ds: Seq<u8>, k: nat)
    requires
        k <= ds.len(),
        all_digits(ds),
        a == ds.subrange(0, k as int),
    ensures
        digits_value(a) >= 0,
    decreases k,
{
    if k > 0 {
        assert(a.drop_last() =~= ds.subrange(0, k - 1));
        lemma_digits_nonneg(a.drop_last(), ds, (k - 1) as nat);
    }
}

/// Appends `c` to `s` by `String::push`. Trusted: the contract claims that the string's
/// characters afterwards are its characters before, followed by `c`, as the documentation
/// of `String::push` says.
#[verifier::external_body]
pub(crate) fn string_push(s: &mut String, c: char)
    ensures
        final(s)@ == old(s)@.push(c),
{
    s.push(c);
}

} // verus!
