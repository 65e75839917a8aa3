use vstd::prelude::*;
use vstd::string::is_ascii_spec_bytes;
use crate::bonds::Atom;
use crate::vector::Point;

verus! {

pub open spec fn is_digit(c: char) -> bool {
    '0' <= c && c <= '9'
}

pub open spec fn digit_value(c: char) -> int {
    c as int - '0' as int
}

pub open spec fn all_digits(s: Seq<char>) -> bool {
    forall|i: int| 0 <= i < s.len() ==> is_digit(#[trigger] s[i])
}

/// The number that a string of decimal digits writes.
pub open spec fn digits_value(s: Seq<char>) -> int
    decreases s.len(),
{
    if s.len() == 0 {
        0
    } else {
        10 * digits_value(s.drop_last()) + digit_value(s.last())
    }
}

pub open spec fn pow10(n: nat) -> int
    decreases n,
{
    if n == 0 {
        1
    } else {
        10 * pow10((n - 1) as nat)
    }
}

/// Femtometres in one ångström.
pub const FM_PER_ANGSTROM: i64 = 100000;

/// `d` splits `body` into digits, a point, and digits.
pub open spec fn point_at(body: Seq<char>, d: int) -> bool {
    &&& 0 <= d < body.len()
    &&& body[d] == '.'
    &&& all_digits(body.take(d))
    &&& all_digits(body.skip(d + 1))
}

/// The integer and the fractional digits of an unsigned decimal, written
/// either as digits alone or as digits, a point and digits.
pub open spec fn decimal_parts(body: Seq<char>) -> Option<(Seq<char>, Seq<char>)> {
    if all_digits(body) {
        Some((body, Seq::<char>::empty()))
    } else if exists|d: int| point_at(body, d) {
        let d = choose|d: int| point_at(body, d);
        Some((body.take(d), body.skip(d + 1)))
    } else {
        None
    }
}

/// The fractional digits in femtometres: the first five digits, rounded
/// half up by the sixth.
pub open spec fn fraction_fm(f: Seq<char>) -> int {
    if f.len() <= 5 {
        digits_value(f) * pow10((5 - f.len()) as nat)
    } else {
        digits_value(f.take(5)) + if digit_value(f[5]) >= 5 {
            1int
        } else {
            0int
        }
    }
}

/// The text up to index `i` holds a sign, if any, and the integer digits
/// whose value is `whole`, followed by a point or by the end.
pub open spec fn whole_part_read(s: Seq<char>, start: int, i: int, whole: int) -> bool {
    &&& start == sign_len(s)
    &&& start <= i <= s.len()
    &&& all_digits(s.skip(start).take(i - start))
    &&& whole == digits_value(s.skip(start).take(i - start))
    &&& 0 <= whole <= 100000
    &&& (i < s.len() ==> s[i] == '.')
}

pub open spec fn sign_len(s: Seq<char>) -> int {
    if s.len() > 0 && (s[0] == '-' || s[0] == '+') {
        1
    } else {
        0
    }
}

/// The coordinate, in femtometres, that a decimal number of ångströms
/// writes: an optional sign, then digits with at most one decimal point and
/// at least one digit, rounded to the nearest femtometre. `None` for other
/// text and for a value that does not fit in an `i32`.
pub open spec fn coordinate_fm(s: Seq<char>) -> Option<int> {
    let body = s.skip(sign_len(s));
    match decimal_parts(body) {
        Some((ip, fp)) => {
            let m = digits_value(ip) * FM_PER_ANGSTROM + fraction_fm(fp);
            let v = if sign_len(s) == 1 && s[0] == '-' {
                -m
            } else {
                m
            };
            if ip.len() + fp.len() > 0 && i32::MIN <= v <= i32::MAX {
                Some(v)
            } else {
                None
            }
        },
        None => None,
    }
}

proof fn lemma_digits_value_nonneg(s: Seq<char>)
    requires
        all_digits(s),
    ensures
        digits_value(s) >= 0,
    decreases s.len(),
{
    if s.len() > 0 {
        lemma_digits_value_nonneg(s.drop_last());
    }
}

proof fn lemma_digits_value_prefix(s: Seq<char>, k: int)
    requires
        all_digits(s),
        0 <= k <= s.len(),
    ensures
        digits_value(s.take(k)) <= digits_value(s),
    decreases s.len(),
{
    if k < s.len() {
        lemma_digits_value_prefix(s.drop_last(), k);
        lemma_digits_value_nonneg(s.drop_last());
        assert(s.drop_last().take(k) =~= s.take(k));
    } else {
        assert(s.take(k) =~= s);
    }
}

proof fn lemma_digits_value_step(s: Seq<char>, k: int)
    requires
        0 <= k < s.len(),
    ensures
        digits_value(s.take(k + 1)) == 10 * digits_value(s.take(k)) + digit_value(s[k]),
{
    assert(s.take(k + 1).drop_last() =~= s.take(k));
}

proof fn lemma_pow10_values()
    ensures
        pow10(0) == 1,
        pow10(1) == 10,
        pow10(2) == 100,
        pow10(3) == 1000,
        pow10(4) == 10000,
        pow10(5) == 100000,
{
    assert(pow10(0) == 1);
    assert(pow10(1) == 10);
    assert(pow10(2) == 100);
    assert(pow10(3) == 1000);
    assert(pow10(4) == 10000);
    assert(pow10(5) == 100000);
}

proof fn lemma_fraction_fm_nonneg(f: Seq<char>)
    requires
        all_digits(f),
    ensures
        fraction_fm(f) >= 0,
{
    lemma_pow10_values();
    if f.len() <= 5 {
        lemma_digits_value_nonneg(f);
        assert(digits_value(f) * pow10((5 - f.len()) as nat) >= 0) by (nonlinear_arith)
            requires digits_value(f) >= 0, pow10((5 - f.len()) as nat) >= 1;
    } else {
        assert(all_digits(f.take(5))) by {
            assert forall|k: int| 0 <= k < 5 implies is_digit(#[trigger] f.take(5)[k]) by {
                assert(f.take(5)[k] == f[k]);
            }
        }
        lemma_digits_value_nonneg(f.take(5));
    }
}

proof fn lemma_ascii_byte(c: char)
    requires
        '\0' <= c <= '\u{7f}',
    ensures
        (c as u8) as int == c as int,
        is_digit(c) <==> 48 <= (c as u8) <= 57,
        is_digit(c) ==> digit_value(c) == (c as u8) - 48,
{
}

/// Integer digits worth more than 100 000 Å give no `i32` of femtometres.
proof fn lemma_whole_too_large(s: Seq<char>, ip_len: int)
    requires
        0 < ip_len <= s.skip(sign_len(s)).len(),
        all_digits(s.skip(sign_len(s)).take(ip_len)),
        digits_value(s.skip(sign_len(s)).take(ip_len)) > 100000,
    ensures
        coordinate_fm(s) is None,
{
    let body = s.skip(sign_len(s));
    if let Some((ip, fp)) = decimal_parts(body) {
        if all_digits(body) {
            lemma_digits_value_prefix(body, ip_len);
        } else {
            let dd = choose|dd: int| point_at(body, dd);
            assert(dd >= ip_len) by {
                if dd < ip_len {
                    assert(body.take(ip_len)[dd] == body[dd]);
                }
            }
            assert(body.take(dd).take(ip_len) =~= body.take(ip_len));
            lemma_digits_value_prefix(body.take(dd), ip_len);
        }
        assert(digits_value(ip) * FM_PER_ANGSTROM > 100000 * 100000) by (nonlinear_arith)
            requires digits_value(ip) > 100000;
        lemma_fraction_fm_nonneg(fp);
    }
}

proof fn lemma_point_unique(body: Seq<char>, d: int)
    requires
        point_at(body, d),
    ensures
        !all_digits(body),
        forall|e: int| point_at(body, e) ==> e == d,
{
    assert(!is_digit(body[d]));
    assert forall|e: int| point_at(body, e) implies e == d by {
        if e < d {
            assert(body.take(d)[e] == body[e]);
        } else if e > d {
            assert(body.take(e)[d] == body[d]);
        }
    }
}

/// Reads a coordinate written in ångströms, such as `-1.2345`, as an integer
/// number of femtometres.
pub fn parse_coordinate(text: &str) -> (r: Option<i32>)
    ensures
        r matches Some(v) ==> coordinate_fm(text@) == Some(v as int),
        r is None ==> coordinate_fm(text@) is None,
{
    let ghost s = text@;
    if !text.is_ascii() {
        proof {
            assert(coordinate_fm(s) is None) by {
                let body = s.skip(sign_len(s));
                let c = choose|i: int| 0 <= i < s.len() && !('\0' <= #[trigger] s[i] <= '\u{7f}');
                if sign_len(s) == 1 {
                    assert(c > 0);
                    assert(body[c - 1] == s[c]);
                    if exists|d: int| point_at(body, d) {
                        let d = choose|d: int| point_at(body, d);
                        if c - 1 < d {
                            assert(body.take(d)[c - 1] == body[c - 1]);
                        } else if c - 1 > d {
                            assert(body.skip(d + 1)[c - 1 - d - 1] == body[c - 1]);
                        }
                    }
                } else {
                    assert(body[c] == s[c]);
                    if exists|d: int| point_at(body, d) {
                        let d = choose|d: int| point_at(body, d);
                        if c < d {
                            assert(body.take(d)[c] == body[c]);
                        } else if c > d {
                            assert(body.skip(d + 1)[c - d - 1] == body[c]);
                        }
                    }
                }
            }
        }
        return None;
    }
    let b = text.as_bytes();
    proof {
        broadcast use is_ascii_spec_bytes;

        assert(b@ =~= Seq::new(s.len(), |i| s[i] as u8));
    }
    let n = b.len();
    let start: usize = if n > 0 && (b[0] == '-' as u8 || b[0] == '+' as u8) {
        1
    } else {
        0
    };
    assert(start == sign_len(s));
    let ghost body = s.skip(start as int);
    // Integer digits, up to the first byte that is not a digit.
    let mut i: usize = start;
    let mut whole: i64 = 0;
    while i < n && '0' as u8 <= b[i] && b[i] <= '9' as u8
        invariant
            n == b@.len() == s.len(),
            s == text@,
            b@ == Seq::new(s.len(), |k| s[k] as u8),
            vstd::utf8::is_ascii_chars(s),
            start <= i <= n,
            start == sign_len(s),
            body == s.skip(start as int),
            all_digits(body.take(i - start)),
            0 <= whole <= 100000,
            whole == digits_value(body.take(i - start)),
        decreases n - i,
    {
        let d = (b[i] - '0' as u8) as i64;
        proof {
            assert(body[i - start] == s[i as int]);
            lemma_digits_value_step(body, i - start);
            assert(all_digits(body.take(i - start + 1))) by {
                assert forall|k: int| 0 <= k < i - start + 1 implies is_digit(
                    #[trigger] body.take(i - start + 1)[k],
                ) by {
                    if k < i - start {
                        assert(body.take(i - start)[k] == body[k]);
                    }
                }
            }
        }
        if whole >= 10000 && (whole > 10000 || d > 0) {
            // Already above 100 000 Å, which no i32 of femtometres reaches.
            proof {
                lemma_whole_too_large(s, i + 1 - start);
            }
            return None;
        }
        whole = whole * 10 + d;
        i = i + 1;
    }
    let ip_len: usize = i - start;
    proof {
        assert(ip_len == i - start);
    }
    if i < n && b[i] != '.' as u8 {
        proof {
            assert(body[ip_len as int] == s[i as int]);
            assert(!is_digit(body[ip_len as int]) && body[ip_len as int] != '.');
            assert(!all_digits(body));
            assert forall|d: int| !point_at(body, d) by {
                if point_at(body, d) {
                    if d > ip_len {
                        assert(body.take(d)[ip_len as int] == body[ip_len as int]);
                    } else if d < ip_len {
                        assert(body.take(ip_len as int)[d] == body[d]);
                    }
                }
            }
        }
        return None;
    }
    proof {
        if i < n {
            assert(b@[i as int] == s[i as int] as u8);
            lemma_ascii_byte(s[i as int]);
        }
    }
    // Fractional digits, after the point.
    let fstart: usize = if i < n {
        i + 1
    } else {
        n
    };
    let ghost fp: Seq<char> = if i < n {
        body.skip(ip_len + 1)
    } else {
        Seq::<char>::empty()
    };
    let ghost ip: Seq<char> = body.take(ip_len as int);
    let mut k: usize = fstart;
    while k < n
        invariant
            n == b@.len() == s.len(),
            s == text@,
            b@ == Seq::new(s.len(), |q| s[q] as u8),
            fstart <= k <= n,
            fstart == n || (fstart == i + 1 && fp == body.skip(ip_len + 1)),
            body == s.skip(start as int),
            start <= i <= n,
            ip_len == i - start,
            vstd::utf8::is_ascii_chars(s),
            whole_part_read(s, start as int, i as int, whole as int),
            ip == body.take(ip_len as int),
            forall|q: int| fstart <= q < k ==> is_digit(#[trigger] s[q]),
        decreases n - k,
    {
        if b[k] < '0' as u8 || b[k] > '9' as u8 {
            proof {
                assert(i < n);
                assert(body[k - start] == s[k as int]);
                assert(b@[k as int] == s[k as int] as u8);
                lemma_ascii_byte(s[k as int]);
                assert(!is_digit(s[k as int]));
                assert(body[ip_len as int] == s[i as int]);
                assert(!all_digits(body));
                assert forall|d: int| !point_at(body, d) by {
                    if point_at(body, d) {
                        if d > ip_len {
                            assert(body.take(d)[ip_len as int] == body[ip_len as int]);
                        } else if d < ip_len {
                            assert(body.take(ip_len as int)[d] == body[d]);
                        } else {
                            assert(body.skip(d + 1)[k - start - d - 1] == body[k - start]);
                        }
                    }
                }
                assert(decimal_parts(body) is None);
                assert(s.skip(sign_len(s)) == body);
            }
            return None;
        }
        k = k + 1;
    }
    let flen: usize = n - fstart;
    proof {
        assert(fp.len() == flen);
        assert forall|q: int| 0 <= q < flen implies #[trigger] fp[q] == s[fstart + q] by {
            assert(fp[q] == body[ip_len + 1 + q]);
        }
        assert(all_digits(fp)) by {
            assert forall|q: int| 0 <= q < flen implies is_digit(#[trigger] fp[q]) by {
                assert(fp[q] == s[fstart + q]);
            }
        }
        if i == n {
            assert(body =~= ip);
            assert(decimal_parts(body) == Some((ip, fp)));
        } else {
            assert(body[ip_len as int] == s[i as int]);
            assert(point_at(body, ip_len as int));
            lemma_point_unique(body, ip_len as int);
            assert(decimal_parts(body) == Some((ip, fp)));
        }
        assert(whole == digits_value(ip));
    }
    if ip_len == 0 && flen == 0 {
        return None;
    }
    let digits: usize = if flen < 5 {
        flen
    } else {
        5
    };
    let mut frac: i64 = 0;
    let mut q: usize = 0;
    proof {
        lemma_pow10_values();
    }
    while q < digits
        invariant
            n == b@.len() == s.len(),
            s == text@,
            b@ == Seq::new(s.len(), |t| s[t] as u8),
            fstart + flen == n,
            vstd::utf8::is_ascii_chars(s),
            whole_part_read(s, start as int, i as int, whole as int),
            body == s.skip(start as int),
            decimal_parts(body) == Some((ip, fp)),
            whole == digits_value(ip),
            digits == if flen < 5 {
                flen
            } else {
                5
            },
            fp.len() == flen,
            all_digits(fp),
            forall|t: int| 0 <= t < flen ==> #[trigger] fp[t] == s[fstart + t],
            digits <= 5,
            digits <= flen,
            q <= digits,
            frac == digits_value(fp.take(q as int)),
            0 <= frac < pow10(q as nat),
            pow10(5) == 100000,
            forall|t: nat| t <= 5 ==> pow10(t) <= 100000,
        decreases digits - q,
    {
        proof {
            assert(fp[q as int] == s[fstart + q]);
            assert(is_digit(fp[q as int]));
            assert(b@[fstart + q] == s[fstart + q] as u8);
            lemma_ascii_byte(s[fstart + q]);
        }
        let d = (b[fstart + q] - '0' as u8) as i64;
        proof {
            lemma_digits_value_step(fp, q as int);
            assert(pow10((q + 1) as nat) == 10 * pow10(q as nat));
        }
        frac = frac * 10 + d;
        q = q + 1;
    }
    if flen <= 5 {
        proof {
            assert(fp.take(flen as int) =~= fp);
        }
        let scale: i64 = if flen == 0 {
            100000
        } else if flen == 1 {
            10000
        } else if flen == 2 {
            1000
        } else if flen == 3 {
            100
        } else if flen == 4 {
            10
        } else {
            1
        };
        assert(scale == pow10((5 - flen) as nat));
        assert(frac * scale <= 100000) by (nonlinear_arith)
            requires 0 <= frac < pow10(flen as nat), scale == pow10((5 - flen) as nat),
                flen <= 5, pow10(0) == 1, pow10(1) == 10, pow10(2) == 100, pow10(3) == 1000,
                pow10(4) == 10000, pow10(5) == 100000;
        frac = frac * scale;
    } else {
        let sixth = b[fstart + 5];
        proof {
            assert(fp[5] == s[fstart + 5]);
        }
        if sixth >= '5' as u8 {
            frac = frac + 1;
        }
    }
    assert(frac == fraction_fm(fp));
    let m: i64 = whole * FM_PER_ANGSTROM + frac;
    let v: i64 = if start == 1 && b[0] == '-' as u8 {
        -m
    } else {
        m
    };
    if v < i32::MIN as i64 || v > i32::MAX as i64 {
        return None;
    }
    Some(v as i32)
}

/// An atom from the fields of one line of a geometry: its element symbol and
/// its three coordinates in ångströms. `None` where a coordinate is not a
/// number that `parse_coordinate` reads.
pub fn parse_atom(symbol: &str, x: &str, y: &str, z: &str) -> (r: Option<Atom>)
    ensures
        r is Some <==> (coordinate_fm(x@) is Some && coordinate_fm(y@) is Some && coordinate_fm(
            z@,
        ) is Some),
        r matches Some(a) ==> a.symbol@ == symbol@ && a.position.x == coordinate_fm(x@)->0
            && a.position.y == coordinate_fm(y@)->0 && a.position.z == coordinate_fm(z@)->0,
{
    let px = parse_coordinate(x)?;
    let py = parse_coordinate(y)?;
    let pz = parse_coordinate(z)?;
    Some(Atom { symbol: symbol.to_owned(), position: Point { x: px, y: py, z: pz } })
}

} // verus!
