//! The mathematical model of bit sequences and of the codewords built on them.
use vstd::arithmetic::power2::*;
use vstd::prelude::*;

verus! {

/// The magnitude of a bit sequence read most significant bit first.
pub open spec fn bits_value(s: Seq<bool>) -> nat
    decreases s.len(),
{
    if s.len() == 0 {
        0
    } else {
        2 * bits_value(s.drop_last()) + (if s.last() { 1nat } else { 0nat })
    }
}

/// The binary digits of `n` that follow its leading 1-bit, most significant first.
pub open spec fn offset_bits(n: nat) -> Seq<bool>
    decreases n,
{
    if n <= 1 {
        Seq::empty()
    } else {
        offset_bits(n / 2).push(n % 2 == 1)
    }
}

/// `s` with the implicit leading 1-bit put back in front.
pub open spec fn lead_one(s: Seq<bool>) -> Seq<bool> {
    seq![true] + s
}

/// A magnitude that decodes into a type of `width` bits: at most `width - 1` significant bits.
pub open spec fn fits_width(n: nat, width: nat) -> bool {
    n < pow2((width - 1) as nat)
}

/// `n` one-bits followed by a terminating zero-bit.
pub open spec fn unary_code(n: nat) -> Seq<bool> {
    Seq::new(n, |i: int| true).push(false)
}

/// The unary-coded number of offset bits, then the offset bits.
pub open spec fn gamma_code(n: nat) -> Seq<bool> {
    unary_code(offset_bits(n).len()) + offset_bits(n)
}

/// The gamma-coded bit length of `n`, then its offset bits.
pub open spec fn delta_code(n: nat) -> Seq<bool> {
    gamma_code(offset_bits(n).len() + 1) + offset_bits(n)
}

/// The concatenation of the codewords of `vs`, in order.
pub open spec fn concat_codes<A>(vs: Seq<nat>, code: spec_fn(nat) -> Seq<A>) -> Seq<A>
    decreases vs.len(),
{
    if vs.len() == 0 {
        Seq::empty()
    } else {
        code(vs[0]) + concat_codes(vs.drop_first(), code)
    }
}

/// A Gamma-coded stream of `vs`.
pub open spec fn gamma_stream(vs: Seq<nat>) -> Seq<bool> {
    concat_codes(vs, |n: nat| gamma_code(n))
}

/// A Delta-coded stream of `vs`.
pub open spec fn delta_stream(vs: Seq<nat>) -> Seq<bool> {
    concat_codes(vs, |n: nat| delta_code(n))
}

/// Every magnitude of `vs` is positive and fits `width`.
pub open spec fn all_codable(vs: Seq<nat>, width: nat) -> bool {
    forall|i: int| 0 <= i < vs.len() ==> 1 <= #[trigger] vs[i] && fits_width(vs[i], width)
}

/// The number of leading one-bits of `s`.
pub open spec fn leading_ones(s: Seq<bool>) -> nat
    decreases s.len(),
{
    if s.len() == 0 || !s[0] {
        0
    } else {
        1 + leading_ones(s.drop_first())
    }
}

/// A single leading one stands for one.
pub proof fn lemma_lead_one_empty()
    ensures
        bits_value(lead_one(Seq::empty())) == 1,
{
    assert(lead_one(Seq::empty()).drop_last() =~= Seq::<bool>::empty());
    assert(bits_value(Seq::<bool>::empty()) == 0);
}

pub proof fn lemma_bits_value_push(s: Seq<bool>, b: bool)
    ensures
        bits_value(s.push(b)) == 2 * bits_value(s) + (if b { 1nat } else { 0nat }),
{
    assert(s.push(b).drop_last() =~= s);
}

/// A sequence of `k` bits stands for less than `2^k`.
pub proof fn lemma_bits_value_bound(s: Seq<bool>)
    ensures
        bits_value(s) < pow2(s.len()),
    decreases s.len(),
{
    if s.len() == 0 {
        lemma_pow2_pos(0);
        assert(pow2(0) == 1) by {
            lemma2_to64();
        }
    } else {
        lemma_bits_value_bound(s.drop_last());
        lemma_pow2_unfold(s.len());
    }
}

/// With its leading one, a sequence of `k` bits stands for a number in `[2^k, 2^(k+1))`.
pub proof fn lemma_lead_one_value(s: Seq<bool>)
    ensures
        pow2(s.len()) <= bits_value(lead_one(s)) < pow2(s.len() + 1),
        bits_value(lead_one(s)) >= 1,
    decreases s.len(),
{
    lemma_pow2_pos(s.len());
    if s.len() == 0 {
        assert(s =~= Seq::<bool>::empty());
        lemma_lead_one_empty();
        lemma2_to64();
    } else {
        let t = s.drop_last();
        assert(lead_one(s) =~= lead_one(t).push(s.last()));
        lemma_bits_value_push(lead_one(t), s.last());
        lemma_lead_one_value(t);
        assert(bits_value(lead_one(s)) == 2 * bits_value(lead_one(t)) + (if s.last() { 1nat } else { 0nat }));
        lemma_pow2_unfold(s.len());
        lemma_pow2_unfold(s.len() + 1);
    }
}

/// The offset bits of `n`, with the leading one put back, stand for `n`; there are
/// `k` of them exactly when `2^k <= n < 2^(k+1)`.
pub proof fn lemma_offset_bits_value(n: nat)
    requires
        n >= 1,
    ensures
        bits_value(lead_one(offset_bits(n))) == n,
        pow2(offset_bits(n).len()) <= n < pow2(offset_bits(n).len() + 1),
    decreases n,
{
    if n <= 1 {
        assert(offset_bits(n) =~= Seq::<bool>::empty());
        lemma_lead_one_empty();
        lemma2_to64();
    } else {
        let t = offset_bits(n / 2);
        lemma_offset_bits_value(n / 2);
        assert(lead_one(offset_bits(n)) =~= lead_one(t).push(n % 2 == 1));
        lemma_bits_value_push(lead_one(t), n % 2 == 1);
        lemma_pow2_unfold(t.len() + 1);
        lemma_pow2_unfold(t.len() + 2);
    }
}

/// Reading a sequence with a leading one and taking its offset bits gives the sequence back.
pub proof fn lemma_offset_bits_of_value(s: Seq<bool>)
    ensures
        offset_bits(bits_value(lead_one(s))) == s,
    decreases s.len(),
{
    if s.len() == 0 {
        assert(s =~= Seq::<bool>::empty());
        lemma_lead_one_empty();
        assert(offset_bits(1) =~= s);
    } else {
        let t = s.drop_last();
        assert(lead_one(s) =~= lead_one(t).push(s.last()));
        lemma_bits_value_push(lead_one(t), s.last());
        lemma_lead_one_value(t);
        lemma_offset_bits_of_value(t);
        let m = bits_value(lead_one(s));
        assert(m / 2 == bits_value(lead_one(t)));
        assert(offset_bits(m) =~= s);
    }
}

/// Two magnitudes with the same offset bits are equal.
pub proof fn lemma_offset_bits_injective(a: nat, b: nat)
    requires
        a >= 1,
        b >= 1,
        offset_bits(a) == offset_bits(b),
    ensures
        a == b,
{
    lemma_offset_bits_value(a);
    lemma_offset_bits_value(b);
}

/// A magnitude fits a width exactly when its offset bits and leading one fit in `width - 1` bits.
pub proof fn lemma_fits_width_offset(n: nat, width: nat)
    requires
        n >= 1,
        width >= 1,
    ensures
        fits_width(n, width) <==> offset_bits(n).len() + 1 <= width - 1,
{
    let k = offset_bits(n).len();
    lemma_offset_bits_value(n);
    if k + 1 <= width - 1 {
        if k + 1 < width - 1 {
            lemma_pow2_strictly_increases(k + 1, (width - 1) as nat);
        }
    } else {
        if k > width - 1 {
            lemma_pow2_strictly_increases((width - 1) as nat, k);
        }
    }
}

/// The leading ones of a unary codeword followed by anything.
pub proof fn lemma_unary_prefix(n: nat, rest: Seq<bool>)
    ensures
        leading_ones(unary_code(n) + rest) == n,
        (unary_code(n) + rest).len() == n + 1 + rest.len(),
        (unary_code(n) + rest)[n as int] == false,
        forall|i: int| 0 <= i < n ==> #[trigger] (unary_code(n) + rest)[i],
        (unary_code(n) + rest).subrange(n + 1 as int, (n + 1 + rest.len()) as int) == rest,
    decreases n,
{
    let s = unary_code(n) + rest;
    assert(s.subrange(n + 1 as int, (n + 1 + rest.len()) as int) =~= rest);
    if n == 0 {
        assert(s[0] == false);
    } else {
        lemma_unary_prefix((n - 1) as nat, rest);
        assert(s.drop_first() =~= unary_code((n - 1) as nat) + rest);
    }
}

/// The leading ones of `s` are all ones, and a zero (if any) follows them.
pub proof fn lemma_leading_ones(s: Seq<bool>)
    ensures
        leading_ones(s) <= s.len(),
        forall|i: int| 0 <= i < leading_ones(s) ==> #[trigger] s[i],
        leading_ones(s) < s.len() ==> !s[leading_ones(s) as int],
    decreases s.len(),
{
    if s.len() > 0 && s[0] {
        lemma_leading_ones(s.drop_first());
        assert forall|i: int| 0 <= i < leading_ones(s) implies #[trigger] s[i] by {
            if i > 0 {
                assert(s[i] == s.drop_first()[i - 1]);
            }
        }
    }
}

/// A sequence whose first `k` bits are ones and whose bit `k` is zero has `k` leading ones.
pub proof fn lemma_leading_ones_at(s: Seq<bool>, k: nat)
    requires
        k < s.len(),
        forall|i: int| 0 <= i < k ==> #[trigger] s[i],
        !s[k as int],
    ensures
        leading_ones(s) == k,
    decreases k,
{
    if k > 0 {
        assert forall|i: int| 0 <= i < k - 1 implies #[trigger] s.drop_first()[i] by {
            assert(s[i + 1]);
        }
        lemma_leading_ones_at(s.drop_first(), (k - 1) as nat);
    }
}

/// The shape of a Gamma codeword followed by anything: `k` ones, a zero, then the
/// `k` offset bits.
pub proof fn lemma_gamma_shape(n: nat, rest: Seq<bool>)
    ensures
        ({
            let k = offset_bits(n).len();
            let s = gamma_code(n) + rest;
            &&& leading_ones(s) == k
            &&& s.len() == 2 * k + 1 + rest.len()
            &&& s.subrange(k + 1 as int, 2 * k + 1 as int) == offset_bits(n)
            &&& s.subrange(2 * k + 1 as int, s.len() as int) == rest
            &&& gamma_code(n).len() == 2 * k + 1
        }),
{
    let k = offset_bits(n).len();
    let s = gamma_code(n) + rest;
    assert(s =~= unary_code(k) + (offset_bits(n) + rest));
    lemma_unary_prefix(k, offset_bits(n) + rest);
    assert(s.subrange(k + 1 as int, 2 * k + 1 as int) =~= offset_bits(n));
    assert(s.subrange(2 * k + 1 as int, s.len() as int) =~= rest);
}

/// A Gamma codeword is never a proper prefix of another: equal streams start with the
/// same magnitude.
pub proof fn lemma_gamma_prefix_free(a: nat, b: nat, x: Seq<bool>, y: Seq<bool>)
    requires
        a >= 1,
        b >= 1,
        gamma_code(a) + x == gamma_code(b) + y,
    ensures
        a == b,
        x == y,
{
    lemma_gamma_shape(a, x);
    lemma_gamma_shape(b, y);
    lemma_offset_bits_injective(a, b);
}

/// The bits between the leading ones and the rest decode to the Gamma codeword of a value.
pub proof fn lemma_gamma_code_of(s: Seq<bool>, k: nat)
    requires
        leading_ones(s) == k,
        s.len() == 2 * k + 1,
    ensures
        gamma_code(bits_value(lead_one(s.subrange(k + 1 as int, 2 * k + 1 as int)))) == s,
        bits_value(lead_one(s.subrange(k + 1 as int, 2 * k + 1 as int))) >= 1,
{
    let off = s.subrange(k + 1 as int, 2 * k + 1 as int);
    lemma_offset_bits_of_value(off);
    lemma_lead_one_value(off);
    lemma_leading_ones(s);
    assert(gamma_code(bits_value(lead_one(off))) =~= s);
}

/// The stream of `vs` followed by one more codeword.
pub proof fn lemma_concat_codes_push<A>(vs: Seq<nat>, v: nat, code: spec_fn(nat) -> Seq<A>)
    ensures
        concat_codes(vs.push(v), code) == concat_codes(vs, code) + code(v),
    decreases vs.len(),
{
    if vs.len() == 0 {
        assert(vs.push(v).drop_first() =~= Seq::<nat>::empty());
        assert(concat_codes(Seq::<nat>::empty(), code) =~= Seq::<A>::empty());
        assert(vs =~= Seq::<nat>::empty());
        assert(vs.push(v)[0] == v);
        assert(concat_codes(vs.push(v), code) =~= code(v));
    } else {
        assert(vs.push(v).drop_first() =~= vs.drop_first().push(v));
        lemma_concat_codes_push(vs.drop_first(), v, code);
        assert(concat_codes(vs.push(v), code) =~= concat_codes(vs, code) + code(v));
    }
}

/// Distinct codable magnitudes never have one codeword as a prefix of the other's.
pub open spec fn prefix_free(code: spec_fn(nat) -> Seq<bool>) -> bool {
    &&& forall|n: nat| #[trigger] code(n).len() > 0
    &&& forall|a: nat, b: nat, x: Seq<bool>, y: Seq<bool>|
        #![trigger code(a) + x, code(b) + y]
        a >= 1 && b >= 1 && code(a) + x == code(b) + y ==> a == b && x == y
}

/// Gamma codewords are prefix free.
pub proof fn lemma_gamma_prefix_free_code()
    ensures
        prefix_free(|n: nat| gamma_code(n)),
{
    let code = |n: nat| gamma_code(n);
    assert forall|n: nat| #[trigger] code(n).len() > 0 by {
        lemma_gamma_shape(n, Seq::empty());
    }
    assert forall|a: nat, b: nat, x: Seq<bool>, y: Seq<bool>|
        a >= 1 && b >= 1 && #[trigger] (code(a) + x) == #[trigger] (code(b) + y) implies a == b
        && x == y by {
        lemma_gamma_prefix_free(a, b, x, y);
    }
}

/// A stream that begins with the stream of `ns` is that stream followed by a stream of
/// the remaining magnitudes.
pub proof fn lemma_stream_strip(
    vs: Seq<nat>,
    ns: Seq<nat>,
    r: Seq<bool>,
    width: nat,
    code: spec_fn(nat) -> Seq<bool>,
)
    requires
        prefix_free(code),
        all_codable(vs, width),
        all_codable(ns, width),
        concat_codes(vs, code) == concat_codes(ns, code) + r,
    ensures
        ns.len() <= vs.len(),
        vs.subrange(0, ns.len() as int) == ns,
        concat_codes(vs.subrange(ns.len() as int, vs.len() as int), code) == r,
    decreases ns.len(),
{
    if ns.len() == 0 {
        assert(concat_codes(ns, code) =~= Seq::<bool>::empty());
        assert(concat_codes(ns, code) + r =~= r);
        assert(vs.subrange(0, 0) =~= ns);
        assert(vs.subrange(0, vs.len() as int) =~= vs);
    } else {
        let tail = ns.drop_first();
        assert(ns[0] >= 1);
        assert(concat_codes(ns, code) + r =~= code(ns[0]) + (concat_codes(tail, code) + r));
        if vs.len() == 0 {
            assert(code(ns[0]).len() > 0);
            assert((code(ns[0]) + (concat_codes(tail, code) + r)).len() > 0);
            assert(false);
        }
        assert(vs[0] >= 1);
        let x = concat_codes(vs.drop_first(), code);
        let y = concat_codes(tail, code) + r;
        assert(code(vs[0]) + x == code(ns[0]) + y);
        assert(all_codable(vs.drop_first(), width)) by {
            assert forall|i: int| 0 <= i < vs.drop_first().len() implies 1 <= #[trigger] vs.drop_first()[i]
                && fits_width(vs.drop_first()[i], width) by {
                assert(vs.drop_first()[i] == vs[i + 1]);
            }
        }
        assert(all_codable(tail, width)) by {
            assert forall|i: int| 0 <= i < tail.len() implies 1 <= #[trigger] tail[i]
                && fits_width(tail[i], width) by {
                assert(tail[i] == ns[i + 1]);
            }
        }
        lemma_stream_strip(vs.drop_first(), tail, r, width, code);
        assert forall|i: int| 0 <= i < ns.len() implies #[trigger] vs.subrange(0, ns.len() as int)[i]
            == ns[i] by {
            if i > 0 {
                assert(vs.drop_first().subrange(0, tail.len() as int)[i - 1] == tail[i - 1]);
            }
        }
        assert(vs.subrange(0, ns.len() as int) =~= ns);
        assert(vs.subrange(ns.len() as int, vs.len() as int) =~= vs.drop_first().subrange(
            tail.len() as int,
            vs.drop_first().len() as int,
        ));
    }
}

/// Only the empty sequence has an empty stream.
pub proof fn lemma_stream_empty(vs: Seq<nat>, code: spec_fn(nat) -> Seq<bool>)
    requires
        prefix_free(code),
        concat_codes(vs, code).len() == 0,
    ensures
        vs.len() == 0,
{
    if vs.len() > 0 {
        assert(code(vs[0]).len() > 0);
    }
}

/// A stream split after its first `i` magnitudes.
pub proof fn lemma_concat_codes_split<A>(vs: Seq<nat>, i: int, code: spec_fn(nat) -> Seq<A>)
    requires
        0 <= i <= vs.len(),
    ensures
        concat_codes(vs, code) == concat_codes(vs.take(i), code) + concat_codes(vs.skip(i), code),
    decreases vs.len(),
{
    if i == 0 {
        assert(vs.take(0) =~= Seq::<nat>::empty());
        assert(vs.skip(0) =~= vs);
        assert(concat_codes(vs.take(0), code) =~= Seq::<A>::empty());
        assert(concat_codes(vs, code) =~= Seq::<A>::empty() + concat_codes(vs, code));
    } else {
        let t = vs.drop_first();
        lemma_concat_codes_split(t, i - 1, code);
        assert(vs.take(i).drop_first() =~= t.take(i - 1));
        assert(vs.take(i)[0] == vs[0]);
        assert(vs.skip(i) =~= t.skip(i - 1));
        assert(concat_codes(vs, code) =~= concat_codes(vs.take(i), code) + concat_codes(
            vs.skip(i),
            code,
        ));
    }
}

/// When a stream of `ns` begins with the stream of `nv` and more bits follow, the next
/// magnitude of `ns` is codable and its codeword comes next.
pub proof fn lemma_stream_next(
    ns: Seq<nat>,
    nv: Seq<nat>,
    cur: Seq<bool>,
    width: nat,
    code: spec_fn(nat) -> Seq<bool>,
)
    requires
        prefix_free(code),
        all_codable(ns, width),
        all_codable(nv, width),
        concat_codes(ns, code) == concat_codes(nv, code) + cur,
        cur.len() > 0,
    ensures
        nv.len() < ns.len(),
        ns.subrange(0, nv.len() as int) == nv,
        1 <= ns[nv.len() as int],
        fits_width(ns[nv.len() as int], width),
        cur == code(ns[nv.len() as int]) + concat_codes(
            ns.subrange(nv.len() + 1 as int, ns.len() as int),
            code,
        ),
{
    lemma_stream_strip(ns, nv, cur, width, code);
    let ws = ns.subrange(nv.len() as int, ns.len() as int);
    if ws.len() == 0 {
        assert(concat_codes(ws, code) =~= Seq::<bool>::empty());
    }
    assert(ws[0] == ns[nv.len() as int]);
    assert(ws.drop_first() =~= ns.subrange(nv.len() + 1 as int, ns.len() as int));
}

/// The Gamma codeword of the next magnitude of a stream, as a decoder finds it.
pub proof fn lemma_gamma_next(w: nat, rest: Seq<bool>, width: nat)
    requires
        w >= 1,
        fits_width(w, width),
        width >= 1,
    ensures
        ({
            let k = offset_bits(w).len();
            let s = gamma_code(w) + rest;
            &&& leading_ones(s) == k
            &&& k < s.len()
            &&& s.len() - (k + 1) >= k
            &&& k + 1 <= width - 1
        }),
{
    lemma_gamma_shape(w, rest);
    lemma_fits_width_offset(w, width);
}

/// The shape of a Delta codeword followed by anything: the Gamma codeword of the bit
/// length `k + 1`, then the `k` offset bits.
pub proof fn lemma_delta_shape(n: nat, rest: Seq<bool>)
    ensures
        ({
            let k = offset_bits(n).len();
            let j = offset_bits(k + 1).len();
            let s = delta_code(n) + rest;
            &&& leading_ones(s) == j
            &&& s.len() == 2 * j + 1 + k + rest.len()
            &&& s.subrange(0, 2 * j + 1 as int) == gamma_code(k + 1)
            &&& s.subrange(2 * j + 1 as int, 2 * j + 1 + k as int) == offset_bits(n)
            &&& s.subrange(2 * j + 1 + k as int, s.len() as int) == rest
            &&& delta_code(n).len() == 2 * j + 1 + k
        }),
{
    let k = offset_bits(n).len();
    let j = offset_bits(k + 1).len();
    let s = delta_code(n) + rest;
    assert(s =~= gamma_code(k + 1) + (offset_bits(n) + rest));
    lemma_gamma_shape(k + 1, offset_bits(n) + rest);
    assert(s.subrange(0, 2 * j + 1 as int) =~= gamma_code(k + 1));
    assert(s.subrange(2 * j + 1 as int, 2 * j + 1 + k as int) =~= offset_bits(n));
    assert(s.subrange(2 * j + 1 + k as int, s.len() as int) =~= rest);
}

/// A Delta codeword is never a proper prefix of another.
pub proof fn lemma_delta_prefix_free(a: nat, b: nat, x: Seq<bool>, y: Seq<bool>)
    requires
        a >= 1,
        b >= 1,
        delta_code(a) + x == delta_code(b) + y,
    ensures
        a == b,
        x == y,
{
    let ka = offset_bits(a).len();
    let kb = offset_bits(b).len();
    assert(delta_code(a) + x =~= gamma_code(ka + 1) + (offset_bits(a) + x));
    assert(delta_code(b) + y =~= gamma_code(kb + 1) + (offset_bits(b) + y));
    lemma_gamma_prefix_free(ka + 1, kb + 1, offset_bits(a) + x, offset_bits(b) + y);
    assert(offset_bits(a) =~= (offset_bits(a) + x).subrange(0, ka as int));
    assert(offset_bits(b) =~= (offset_bits(b) + y).subrange(0, kb as int));
    lemma_offset_bits_injective(a, b);
    assert(x =~= (offset_bits(a) + x).subrange(ka as int, (ka + x.len()) as int));
    assert(y =~= (offset_bits(b) + y).subrange(kb as int, (kb + y.len()) as int));
}

/// Delta codewords are prefix free.
pub proof fn lemma_delta_prefix_free_code()
    ensures
        prefix_free(|n: nat| delta_code(n)),
{
    let code = |n: nat| delta_code(n);
    assert forall|n: nat| #[trigger] code(n).len() > 0 by {
        lemma_delta_shape(n, Seq::empty());
    }
    assert forall|a: nat, b: nat, x: Seq<bool>, y: Seq<bool>|
        a >= 1 && b >= 1 && #[trigger] (code(a) + x) == #[trigger] (code(b) + y) implies a == b
        && x == y by {
        lemma_delta_prefix_free(a, b, x, y);
    }
}

/// The Delta codeword of the next magnitude of a stream, as a decoder finds it.
pub proof fn lemma_delta_next(w: nat, rest: Seq<bool>, width: nat)
    requires
        w >= 1,
        fits_width(w, width),
        8 <= width <= 128,
    ensures
        ({
            let k = offset_bits(w).len();
            let j = offset_bits(k + 1).len();
            let s = delta_code(w) + rest;
            &&& leading_ones(s) == j
            &&& j < s.len()
            &&& s.len() - (j + 1) >= j
            &&& s.subrange(0, 2 * j + 1 as int) == gamma_code(k + 1)
            &&& fits_width(k + 1, 64)
            &&& s.len() - (2 * j + 1) >= k
            &&& k + 1 <= width - 1
        }),
{
    let k = offset_bits(w).len();
    lemma_delta_shape(w, rest);
    lemma_fits_width_offset(w, width);
    lemma2_to64();
    lemma_pow2_strictly_increases(7, 63);
}

/// A magnitude below `2^w` has fewer than `w` offset bits.
pub proof fn lemma_offset_bits_len_bound(n: nat, w: nat)
    requires
        n >= 1,
        n < pow2(w),
    ensures
        offset_bits(n).len() < w,
{
    lemma_offset_bits_value(n);
    if offset_bits(n).len() >= w {
        if offset_bits(n).len() > w {
            lemma_pow2_strictly_increases(w, offset_bits(n).len());
        }
    }
}

/// Bit `j` of byte `b`, counted from the most significant bit.
pub open spec fn byte_bit(b: u8, j: u8) -> bool {
    (b >> ((7 - j) as u8)) & 1u8 == 1u8
}

/// The bits of `bytes`, each byte most significant bit first.
pub open spec fn bits_of_bytes(bytes: Seq<u8>) -> Seq<bool> {
    Seq::new(8 * bytes.len(), |i: int| byte_bit(bytes[i / 8], (i % 8) as u8))
}

/// `n` zero-bits.
pub open spec fn zeros(n: nat) -> Seq<bool> {
    Seq::new(n, |i: int| false)
}

/// The bits of `bytes` that follow the first `len` bits are all zero.
pub open spec fn zero_padded(bytes: Seq<u8>, len: nat) -> bool {
    forall|i: int| len <= i < 8 * bytes.len() ==> !#[trigger] bits_of_bytes(bytes)[i]
}

/// `bytes` is the sentinel framing of `payload`: the payload bits, one 1-bit, then
/// zero-bits up to the byte boundary. An empty payload is framed as no bytes at all.
pub open spec fn frames(bytes: Seq<u8>, payload: Seq<bool>) -> bool {
    if payload.len() == 0 {
        bytes.len() == 0
    } else {
        &&& bytes.len() == payload.len() / 8 + 1
        &&& bits_of_bytes(bytes) == payload.push(true) + zeros(
            (8 * bytes.len() - payload.len() - 1) as nat,
        )
    }
}

/// The index of the last 1-bit of `s`, or -1 when there is none.
pub open spec fn last_one(s: Seq<bool>) -> int
    decreases s.len(),
{
    if s.len() == 0 {
        -1
    } else if s.last() {
        s.len() - 1
    } else {
        last_one(s.drop_last())
    }
}

/// The payload of a sentinel-framed stream: the bits before the last 1-bit. There is
/// none when the last byte holds no 1-bit; no bytes frame the empty payload.
pub open spec fn sentinel_payload(bytes: Seq<u8>) -> Option<Seq<bool>> {
    if bytes.len() == 0 {
        Some(Seq::empty())
    } else if bytes.last() == 0 {
        None
    } else {
        Some(bits_of_bytes(bytes).take(last_one(bits_of_bytes(bytes))))
    }
}

/// Setting or clearing one bit of a byte leaves the other bits alone.
pub proof fn lemma_set_bit(b: u8, pos: u8, j: u8)
    requires
        pos < 8,
        j < 8,
    ensures
        byte_bit(b | (1u8 << ((7 - pos) as u8)), j) == (j == pos || byte_bit(b, j)),
        byte_bit(b & !(1u8 << ((7 - pos) as u8)), j) == (j != pos && byte_bit(b, j)),
{
    assert(((b | (1u8 << ((7 - pos) as u8))) >> ((7 - j) as u8)) & 1u8 == 1u8 <==> (j == pos || (b
        >> ((7 - j) as u8)) & 1u8 == 1u8)) by (bit_vector)
        requires
            pos < 8,
            j < 8,
    ;
    assert(((b & !(1u8 << ((7 - pos) as u8))) >> ((7 - j) as u8)) & 1u8 == 1u8 <==> (j != pos && (b
        >> ((7 - j) as u8)) & 1u8 == 1u8)) by (bit_vector)
        requires
            pos < 8,
            j < 8,
    ;
}

/// A zero byte has no 1-bit; a byte with a 1-bit is not zero.
pub proof fn lemma_zero_byte(b: u8, j: u8)
    requires
        j < 8,
    ensures
        b == 0 ==> !byte_bit(b, j),
{
    assert(b == 0 ==> (b >> ((7 - j) as u8)) & 1u8 != 1u8) by (bit_vector);
}

/// The last 1-bit of a sequence whose bit `k` is one and whose later bits are zero.
pub proof fn lemma_last_one_at(s: Seq<bool>, k: int)
    requires
        0 <= k < s.len(),
        s[k],
        forall|i: int| k < i < s.len() ==> !#[trigger] s[i],
    ensures
        last_one(s) == k,
    decreases s.len(),
{
    if k < s.len() - 1 {
        assert(!s[s.len() - 1]);
        lemma_last_one_at(s.drop_last(), k);
    }
}

/// Sentinel framing round trip: for every payload, including one whose length is a
/// multiple of 8, reading the framed bytes back with the sentinel protocol gives exactly
/// the payload.
pub proof fn lemma_sentinel_round_trip(bytes: Seq<u8>, payload: Seq<bool>)
    requires
        frames(bytes, payload),
    ensures
        sentinel_payload(bytes) == Some(payload),
{
    if payload.len() > 0 {
        let bits = bits_of_bytes(bytes);
        let k = payload.len() as int;
        assert(bits[k]);
        assert forall|i: int| k < i < bits.len() implies !#[trigger] bits[i] by {
            assert(bits[i] == zeros((8 * bytes.len() - payload.len() - 1) as nat)[i - k - 1]);
        }
        lemma_last_one_at(bits, k);
        assert(bits.take(k) =~= payload);
        let n = bytes.len() as int;
        assert(k / 8 == n - 1);
        assert(bits[k] == byte_bit(bytes[n - 1], (k % 8) as u8));
        lemma_zero_byte(bytes[n - 1], (k % 8) as u8);
    }
}

} // verus!
