//! Decimal text of amplitudes, at a fixed number of decimals.
use vstd::prelude::*;
use vstd::arithmetic::div_mod::lemma_fundamental_div_mod_converse;

verus! {

pub open spec fn pow10(p: nat) -> nat
    decreases p,
{
    if p == 0 { 1 } else { 10 * pow10((p - 1) as nat) }
}

/// `level / full` scaled by `10^p` and rounded to the nearest integer, halves
/// to the even neighbour.
pub open spec fn scaled(level: nat, full: nat, p: nat) -> nat {
    let x = level * pow10(p);
    let q = x / full;
    let r = x % full;
    if 2 * r > full || (2 * r == full && q % 2 == 1) { q + 1 } else { q }
}

/// The lowest `p` decimal digits of `n`, as ASCII, most significant first.
pub open spec fn digits(n: nat, p: nat) -> Seq<u8>
    decreases p,
{
    if p == 0 { seq![] } else { digits(n / 10, (p - 1) as nat).push((48 + n % 10) as u8) }
}

/// `level / full` written with `p` decimals: the integer digit, then a point
/// and the decimals when `p > 0`.
pub open spec fn decimal_text(level: nat, full: nat, p: nat) -> Seq<u8> {
    let n = scaled(level, full, p);
    let whole = n / pow10(p);
    if p == 0 {
        seq![(48 + whole) as u8]
    } else {
        seq![(48 + whole) as u8, 46u8] + digits(n, p)
    }
}

/// Numeric value of a sequence of decimal digit values, most significant first.
spec fn value(s: Seq<u8>) -> nat
    decreases s.len(),
{
    if s.len() == 0 { 0 } else { value(s.drop_last()) * 10 + s.last() as nat }
}

spec fn all_digits(s: Seq<u8>) -> bool {
    forall|i: int| 0 <= i < s.len() ==> #[trigger] s[i] <= 9
}

proof fn lemma_pow10_pos(p: nat)
    ensures
        pow10(p) >= 1,
    decreases p,
{
    if p > 0 {
        lemma_pow10_pos((p - 1) as nat);
    }
}

proof fn lemma_value_bound(s: Seq<u8>)
    requires
        all_digits(s),
    ensures
        value(s) < pow10(s.len()),
    decreases s.len(),
{
    if s.len() > 0 {
        let d = s.drop_last();
        assert(all_digits(d)) by {
            assert forall|i: int| 0 <= i < d.len() implies #[trigger] d[i] <= 9 by {
                assert(d[i] == s[i]);
            }
        }
        lemma_value_bound(d);
        assert(s.last() == s[s.len() - 1]);
        assert(value(d) * 10 + s.last() < pow10(s.len())) by (nonlinear_arith)
            requires
                value(d) < pow10(d.len()),
                s.last() <= 9,
                pow10(s.len()) == 10 * pow10(d.len()),
        ;
    }
}

proof fn lemma_value_concat(a: Seq<u8>, b: Seq<u8>)
    ensures
        value(a + b) == value(a) * pow10(b.len()) + value(b),
    decreases b.len(),
{
    if b.len() == 0 {
        assert(a + b =~= a);
        assert(pow10(0) == 1);
        assert(value(a) * 1 == value(a));
    } else {
        let bd = b.drop_last();
        assert((a + b).drop_last() =~= a + bd);
        assert((a + b).last() == b.last());
        lemma_value_concat(a, bd);
        assert(value(a) * pow10(b.len()) == value(a) * pow10(bd.len()) * 10) by (nonlinear_arith)
            requires
                pow10(b.len()) == 10 * pow10(bd.len()),
        ;
        assert((value(a) * pow10(bd.len()) + value(bd)) * 10 == value(a) * pow10(bd.len()) * 10 + value(bd) * 10) by (nonlinear_arith);
        assert(value(a + b) == value(a + bd) * 10 + b.last() as nat);
        assert(value(b) == value(bd) * 10 + b.last() as nat);
    }
}

proof fn lemma_value_nines(m: nat)
    ensures
        value(Seq::new(m, |i: int| 9u8)) + 1 == pow10(m),
    decreases m,
{
    if m > 0 {
        assert(Seq::new(m, |i: int| 9u8).drop_last() =~= Seq::new((m - 1) as nat, |i: int| 9u8));
        lemma_value_nines((m - 1) as nat);
    }
}

proof fn lemma_value_zeros(m: nat)
    ensures
        value(Seq::new(m, |i: int| 0u8)) == 0,
    decreases m,
{
    if m > 0 {
        assert(Seq::new(m, |i: int| 0u8).drop_last() =~= Seq::new((m - 1) as nat, |i: int| 0u8));
        lemma_value_zeros((m - 1) as nat);
    }
}

/// The ASCII digits of `w * 10^|s| + value(s)` are those of `s`.
proof fn lemma_digits_of_value(s: Seq<u8>, w: nat)
    requires
        all_digits(s),
    ensures
        digits(w * pow10(s.len()) + value(s), s.len()) == s.map_values(|d: u8| (48 + d) as u8),
        (w * pow10(s.len()) + value(s)) / pow10(s.len()) == w,
    decreases s.len(),
{
    lemma_value_bound(s);
    lemma_pow10_pos(s.len());
    lemma_fundamental_div_mod_converse((w * pow10(s.len()) + value(s)) as int, pow10(s.len()) as int, w as int, value(s) as int);
    if s.len() > 0 {
        let d = s.drop_last();
        assert(all_digits(d)) by {
            assert forall|i: int| 0 <= i < d.len() implies #[trigger] d[i] <= 9 by {
                assert(d[i] == s[i]);
            }
        }
        lemma_digits_of_value(d, w);
        assert(s.last() == s[s.len() - 1]);
        let n = w * pow10(s.len()) + value(s);
        let m = w * pow10(d.len()) + value(d);
        assert(n == m * 10 + s.last()) by (nonlinear_arith)
            requires
                n == w * pow10(s.len()) + value(s),
                m == w * pow10(d.len()) + value(d),
                pow10(s.len()) == 10 * pow10(d.len()),
                value(s) == value(d) * 10 + s.last(),
        ;
        lemma_fundamental_div_mod_converse(n as int, 10, m as int, s.last() as int);
        assert(digits(n, s.len()) =~= s.map_values(|d: u8| (48 + d) as u8));
    } else {
        assert(digits(w * pow10(s.len()) + value(s), s.len()) =~= s.map_values(|d: u8| (48 + d) as u8));
    }
}

/// Adds one to the number `w * 10^|s| + value(s)`, given as its leading part
/// `w` and its `|s|` lowest digits.
fn increment(w: u128, s: Vec<u8>) -> (r: (u128, Vec<u8>))
    requires
        all_digits(s@),
        w < 9,
    ensures
        all_digits(r.1@),
        r.1@.len() == s@.len(),
        r.0 <= w + 1,
        r.0 * pow10(s@.len()) + value(r.1@) == w * pow10(s@.len()) + value(s@) + 1,
{
    let p = s.len();
    let mut i: usize = p;
    while i > 0 && s[i - 1] == 9
        invariant
            i <= p,
            p == s@.len(),
            forall|j: int| i <= j < p ==> s@[j] == 9,
        decreases i,
    {
        i = i - 1;
    }
    let ghost m = (p - i) as nat;
    proof {
        assert(s@.subrange(i as int, p as int) =~= Seq::new(m, |x: int| 9u8));
        lemma_value_nines(m);
    }
    let mut out: Vec<u8> = Vec::new();
    let mut j: usize = 0;
    let top = if i == 0 { w + 1 } else { w };
    if i > 0 {
        while j < i - 1
            invariant
                j <= i - 1,
                i <= p,
                p == s@.len(),
                out@ == s@.take(j as int),
            decreases i - 1 - j,
        {
            out.push(s[j]);
            j = j + 1;
            proof {
                assert(out@ =~= s@.take(j as int));
            }
        }
        out.push(s[i - 1] + 1);
    }
    let ghost head = out@;
    let mut z: usize = 0;
    while z < p - i
        invariant
            z <= p - i,
            out@ == head + Seq::new(z as nat, |x: int| 0u8),
        decreases p - i - z,
    {
        out.push(0);
        z = z + 1;
        proof {
            assert(out@ =~= head + Seq::new(z as nat, |x: int| 0u8));
        }
    }
    proof {
        let zeros = Seq::new(m, |x: int| 0u8);
        let nines = Seq::new(m, |x: int| 9u8);
        lemma_value_zeros(m);
        lemma_value_concat(head, zeros);
        if i == 0 {
            assert(s@ =~= nines);
            assert(head =~= Seq::<u8>::empty());
            assert(value(head) == 0);
            assert(top * pow10(p as nat) + value(out@) == w * pow10(p as nat) + value(s@) + 1) by (nonlinear_arith)
                requires
                    top == w + 1,
                    value(out@) == 0,
                    value(s@) + 1 == pow10(p as nat),
            ;
        } else {
            let pre = s@.take(i - 1);
            assert(s@ =~= pre.push(s@[i - 1]) + nines);
            assert(head =~= pre.push((s@[i - 1] + 1) as u8));
            lemma_value_concat(pre.push(s@[i - 1]), nines);
            assert(pre.push(s@[i - 1]).drop_last() =~= pre);
            assert(pre.push((s@[i - 1] + 1) as u8).drop_last() =~= pre);
            assert(value(out@) == value(s@) + 1) by (nonlinear_arith)
                requires
                    value(out@) == value(head) * pow10(m) + 0,
                    value(s@) == value(pre.push(s@[i - 1])) * pow10(m) + value(nines),
                    value(nines) + 1 == pow10(m),
                    value(head) == value(pre) * 10 + s@[i - 1] + 1,
                    value(pre.push(s@[i - 1])) == value(pre) * 10 + s@[i - 1],
            ;
        }
        assert(all_digits(out@)) by {
            assert forall|x: int| 0 <= x < out@.len() implies #[trigger] out@[x] <= 9 by {
                if x < head.len() {
                    assert(out@[x] == head[x]);
                    if i > 0 && x < i - 1 {
                        assert(head[x] == s@[x]);
                    }
                }
            }
        }
    }
    (top, out)
}

/// The decimal text of amplitude `level / full` with `precision` decimals.
pub fn render_amplitude(level: u128, full: u128, precision: usize) -> (r: Vec<u8>)
    requires
        0 < full <= u64::MAX,
        level <= full,
    ensures
        r@ == decimal_text(level as nat, full as nat, precision as nat),
{
    let whole: u128 = level / full;
    let mut rem: u128 = level % full;
    proof {
        vstd::arithmetic::div_mod::lemma_fundamental_div_mod(level as int, full as int);
        if level == full {
            lemma_fundamental_div_mod_converse(level as int, full as int, 1, 0);
        } else {
            lemma_fundamental_div_mod_converse(level as int, full as int, 0, level as int);
        }
        assert(pow10(0) == 1);
        assert((level as nat) * pow10(0) == level);
    }
    let mut digs: Vec<u8> = Vec::new();
    let mut t: usize = 0;
    while t < precision
        invariant
            t <= precision,
            0 < full <= u64::MAX,
            all_digits(digs@),
            digs@.len() == t,
            rem < full,
            whole <= 1,
            (whole as nat) * pow10(t as nat) + value(digs@) == ((level as nat) * pow10(t as nat)) / (full as nat),
            rem as nat == ((level as nat) * pow10(t as nat)) % (full as nat),
        decreases precision - t,
    {
        let x: u128 = rem * 10;
        let d: u128 = x / full;
        let nrem: u128 = x % full;
        proof {
            vstd::arithmetic::div_mod::lemma_fundamental_div_mod(x as int, full as int);
            assert(d * full + nrem == x) by (nonlinear_arith)
                requires
                    x == full * d + nrem,
            ;
            assert(d < 10) by (nonlinear_arith)
                requires
                    x == rem * 10,
                    rem < full,
                    d * full + nrem == x,
                    nrem >= 0,
                    full > 0,
            ;
            let big = (level as nat) * pow10(t as nat);
            let q = big / (full as nat);
            vstd::arithmetic::div_mod::lemma_fundamental_div_mod(big as int, full as int);
            assert((level as nat) * pow10((t + 1) as nat) == 10 * big) by (nonlinear_arith)
                requires
                    pow10((t + 1) as nat) == 10 * pow10(t as nat),
                    big == (level as nat) * pow10(t as nat),
            ;
            assert(10 * big == (10 * q + d) * full + nrem) by (nonlinear_arith)
                requires
                    big == full * q + rem,
                    x == rem * 10,
                    x == d * full + nrem,
            ;
            lemma_fundamental_div_mod_converse((10 * big) as int, full as int, (10 * q + d) as int, nrem as int);
        }
        let ghost before = digs@;
        digs.push(d as u8);
        rem = nrem;
        t = t + 1;
        proof {
            assert(digs@.drop_last() =~= before);
            assert((whole as nat) * pow10(t as nat) == 10 * ((whole as nat) * pow10((t - 1) as nat))) by (nonlinear_arith)
                requires
                    pow10(t as nat) == 10 * pow10((t - 1) as nat),
            ;
            assert(all_digits(digs@)) by {
                assert forall|i: int| 0 <= i < digs@.len() implies #[trigger] digs@[i] <= 9 by {
                    if i < before.len() {
                        assert(digs@[i] == before[i]);
                    }
                }
            }
        }
    }
    let ghost q = (whole as nat) * pow10(precision as nat) + value(digs@);
    let odd = if precision == 0 { whole % 2 == 1 } else { digs[precision - 1] % 2 == 1 };
    proof {
        if precision > 0 {
            let dl = digs@.drop_last();
            let last = digs@[precision - 1];
            assert(digs@.last() == last);
            let k = (whole as nat) * pow10((precision - 1) as nat) + value(dl);
            assert(q == 10 * k + last) by (nonlinear_arith)
                requires
                    q == (whole as nat) * pow10(precision as nat) + value(digs@),
                    pow10(precision as nat) == 10 * pow10((precision - 1) as nat),
                    value(digs@) == value(dl) * 10 + last,
                    k == (whole as nat) * pow10((precision - 1) as nat) + value(dl),
            ;
            lemma_fundamental_div_mod_converse(q as int, 2, (5 * k + last / 2) as int, (last % 2) as int);
        } else {
            assert(q == whole);
        }
        assert(odd == (q % 2 == 1));
    }
    let up = 2 * rem > full || (2 * rem == full && odd);
    let (top, ds) = if up { increment(whole, digs) } else { (whole, digs) };
    proof {
        assert(top * pow10(precision as nat) + value(ds@) == scaled(level as nat, full as nat, precision as nat));
        lemma_digits_of_value(ds@, top as nat);
    }
    let mut out: Vec<u8> = Vec::new();
    out.push((48 + top) as u8);
    if precision > 0 {
        out.push(46u8);
        let mut j: usize = 0;
        while j < ds.len()
            invariant
                j <= ds@.len(),
                all_digits(ds@),
                out@ == seq![(48 + top) as u8, 46u8] + ds@.take(j as int).map_values(|d: u8| (48 + d) as u8),
            decreases ds@.len() - j,
        {
            proof {
                assert(ds@[j as int] <= 9);
            }
            out.push(48 + ds[j]);
            j = j + 1;
            proof {
                assert(out@ =~= seq![(48 + top) as u8, 46u8] + ds@.take(j as int).map_values(|d: u8| (48 + d) as u8));
            }
        }
        proof {
            assert(ds@.take(j as int) =~= ds@);
        }
    } else {
        proof {
            assert(out@ =~= seq![(48 + top) as u8]);
        }
    }
    out
}

/// The text of values `levels` of one channel's array whose first stands at
/// index `first_index`: each value after the array's first is preceded by a comma.
pub open spec fn rendered(levels: Seq<u128>, first_index: nat, full: nat, p: nat) -> Seq<u8>
    decreases levels.len(),
{
    if levels.len() == 0 {
        seq![]
    } else {
        let prev = rendered(levels.drop_last(), first_index, full, p);
        let sep: Seq<u8> = if first_index + levels.len() - 1 > 0 { seq![44u8] } else { seq![] };
        prev + sep + decimal_text(levels.last() as nat, full, p)
    }
}

/// Text of consecutive values of one channel's array, the first of them at
/// index `first_index` of the array.
pub fn render_levels(levels: &Vec<u128>, first_index: u64, full: u128, precision: usize) -> (r: Vec<u8>)
    requires
        0 < full <= u64::MAX,
        forall|j: int| 0 <= j < levels@.len() ==> #[trigger] levels@[j] <= full,
    ensures
        r@ == rendered(levels@, first_index as nat, full as nat, precision as nat),
{
    let mut out: Vec<u8> = Vec::new();
    let mut j: usize = 0;
    while j < levels.len()
        invariant
            j <= levels@.len(),
            0 < full <= u64::MAX,
            forall|x: int| 0 <= x < levels@.len() ==> #[trigger] levels@[x] <= full,
            out@ == rendered(levels@.take(j as int), first_index as nat, full as nat, precision as nat),
        decreases levels@.len() - j,
    {
        let ghost prev = out@;
        if first_index > 0 || j > 0 {
            out.push(44u8);
        }
        let mut text = render_amplitude(levels[j], full, precision);
        out.append(&mut text);
        j = j + 1;
        proof {
            assert(levels@.take(j as int).drop_last() =~= levels@.take(j - 1));
            let sep: Seq<u8> = if first_index + j - 1 > 0 { seq![44u8] } else { seq![] };
            assert(out@ =~= prev + sep + decimal_text(levels@[j - 1] as nat, full as nat, precision as nat));
        }
    }
    proof {
        assert(levels@.take(j as int) =~= levels@);
    }
    out
}

} // verus!
