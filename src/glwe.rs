use crate::field::P;
use crate::lwe::{is_small, random_field, sample_noise};
use crate::params::{Params, MAX_GLWE_SIZE, MAX_RING_DIM};
use crate::poly::{canon, padd, pmul, prot, psub, pzero, ring_elem, Poly};
use vstd::prelude::*;

verus! {

/// A GLWE ciphertext: k mask ring elements followed by the body.
pub struct Glwe {
    pub polys: Vec<Poly>,
}

/// The coefficient sequences of a list of ring elements.
pub open spec fn polys_view(v: Seq<Poly>) -> Seq<Seq<u64>> {
    v.map_values(|p: Poly| p@)
}

impl View for Glwe {
    type V = Seq<Seq<u64>>;

    open spec fn view(&self) -> Seq<Seq<u64>> {
        polys_view(self.polys@)
    }
}

/// `c` holds `count` canonical ring elements of `n` coefficients each.
pub open spec fn ring_vec(c: Seq<Seq<u64>>, count: nat, n: nat) -> bool {
    c.len() == count && forall|j: int| 0 <= j < count ==> #[trigger] ring_elem(c[j], n)
}

/// A GLWE ciphertext of the given dimensions.
pub open spec fn glwe_wf(c: Seq<Seq<u64>>, params: Params) -> bool {
    ring_vec(c, params.glwe_size as nat, params.ring_dim as nat)
}

/// A GLWE key of the given dimensions: k ring elements.
pub open spec fn glwe_key_wf(key: Seq<Seq<u64>>, params: Params) -> bool {
    ring_vec(key, params.mask_count(), params.ring_dim as nat)
}

/// Sum of the first `m` products `c[j] * key[j]`.
pub open spec fn gdot(c: Seq<Seq<u64>>, key: Seq<Seq<u64>>, m: nat, n: nat) -> Seq<u64>
    decreases m,
{
    if m == 0 {
        pzero(n)
    } else {
        padd(gdot(c, key, (m - 1) as nat, n), pmul(c[m - 1], key[m - 1]))
    }
}

/// The body of a GLWE encryption of `msg` with noise `e`, for the given masks.
pub open spec fn glwe_body(key: Seq<Seq<u64>>, masks: Seq<Seq<u64>>, msg: Seq<u64>, e: Seq<u64>) -> Seq<u64> {
    padd(padd(gdot(masks, key, key.len(), msg.len()), msg), e)
}

/// The phase of a GLWE ciphertext: the body minus the masks times the key.
pub open spec fn glwe_phase(key: Seq<Seq<u64>>, c: Seq<Seq<u64>>) -> Seq<u64> {
    psub(c[key.len() as int], gdot(c, key, key.len(), c[key.len() as int].len()))
}

pub open spec fn gadd(a: Seq<Seq<u64>>, b: Seq<Seq<u64>>) -> Seq<Seq<u64>> {
    Seq::new(a.len(), |j: int| padd(a[j], b[j]))
}

pub open spec fn gsub(a: Seq<Seq<u64>>, b: Seq<Seq<u64>>) -> Seq<Seq<u64>> {
    Seq::new(a.len(), |j: int| psub(a[j], b[j]))
}

/// Every ring element of the ciphertext multiplied by X^s.
pub open spec fn grot(a: Seq<Seq<u64>>, s: int) -> Seq<Seq<u64>> {
    Seq::new(a.len(), |j: int| prot(a[j], s))
}

/// The noiseless ciphertext with zero masks and the given body.
pub open spec fn gtrivial(body: Seq<u64>, size: nat) -> Seq<Seq<u64>> {
    Seq::new(size, |j: int| if j + 1 < size { pzero(body.len()) } else { body })
}

/// The key whose coefficients, read in order, start with `bits` and are zero after them.
pub open spec fn partial_key_of(bits: Seq<u64>, k: nat, n: nat) -> Seq<Seq<u64>> {
    Seq::new(k, |j: int| Seq::new(n, |t: int| if j * n + t < bits.len() { bits[j * n + t] } else { 0u64 }))
}

/// The first `m` coefficients of a key, read in order.
pub open spec fn flatten_key(key: Seq<Seq<u64>>, m: nat, n: nat) -> Seq<u64> {
    Seq::new(m, |i: int| key[i / (n as int)][i % (n as int)])
}

/// Every coordinate is 0 or 1.
pub open spec fn binary(s: Seq<u64>) -> bool {
    forall|i: int| 0 <= i < s.len() ==> #[trigger] s[i] <= 1
}

/// Reading back the leading coefficients of a partial key gives its bits.
pub proof fn lemma_partial_key_round_trip(bits: Seq<u64>, k: nat, n: nat)
    requires
        n > 0,
        bits.len() <= k * n,
    ensures
        flatten_key(partial_key_of(bits, k, n), bits.len(), n) == bits,
{
    let key = partial_key_of(bits, k, n);
    assert forall|i: int| 0 <= i < bits.len() implies #[trigger] flatten_key(key, bits.len(), n)[i] == bits[i] by {
        let j = i / (n as int);
        let t = i % (n as int);
        vstd::arithmetic::div_mod::lemma_fundamental_div_mod(i, n as int);
        vstd::arithmetic::div_mod::lemma_div_pos_is_pos(i, n as int);
        assert(k * n == n * k) by (nonlinear_arith);
        vstd::arithmetic::div_mod::lemma_div_is_ordered(i, (n * k) as int, n as int);
        vstd::arithmetic::div_mod::lemma_div_multiples_vanish(k as int, n as int);
        assert(j * n + t == i) by (nonlinear_arith)
            requires
                i == n * j + t,
        ;
        assert(j <= k);
        if j == k {
            assert(k * n <= i) by (nonlinear_arith)
                requires
                    j == k,
                    i == n * j + t,
                    t >= 0,
            ;
        }
    }
    assert(flatten_key(key, bits.len(), n) =~= bits);
}

/// The phase of an encryption is the message plus the noise.
pub proof fn lemma_glwe_decrypt_encrypt(key: Seq<Seq<u64>>, masks: Seq<Seq<u64>>, msg: Seq<u64>, e: Seq<u64>)
    requires
        masks.len() == key.len(),
        forall|j: int| 0 <= j < masks.len() ==> (#[trigger] masks[j]).len() == msg.len(),
        e.len() == msg.len(),
    ensures
        glwe_phase(key, masks.push(glwe_body(key, masks, msg, e))) == padd(msg, e),
{
    let c = masks.push(glwe_body(key, masks, msg, e));
    let k = key.len();
    let n = msg.len();
    lemma_gdot_prefix(c, masks, key, k, n);
    let d = gdot(masks, key, k, n);
    lemma_gdot_len(masks, key, k, n);
    assert forall|i: int| 0 <= i < n implies #[trigger] glwe_phase(key, c)[i] == padd(msg, e)[i] by {
        let x = d[i] as int;
        crate::field::lemma_fred_add(x + msg[i], e[i] as int);
        crate::field::lemma_fred_sub(x + msg[i] + e[i], x);
        crate::field::lemma_fred_add_right(x, msg[i] as int);
        assert(x + msg[i] + e[i] - x == msg[i] + e[i]);
        crate::field::lemma_fred_sub(crate::field::fred(x + msg[i]) + e[i], x);
        crate::field::lemma_fred_add(x + msg[i], e[i] as int);
    }
    assert(glwe_phase(key, c) =~= padd(msg, e));
}

pub proof fn lemma_gdot_len(c: Seq<Seq<u64>>, key: Seq<Seq<u64>>, m: nat, n: nat)
    ensures
        gdot(c, key, m, n).len() == n,
    decreases m,
{
    if m > 0 {
        lemma_gdot_len(c, key, (m - 1) as nat, n);
    }
}

/// The masks-times-key sum only reads the masks it sums.
pub proof fn lemma_gdot_prefix(a: Seq<Seq<u64>>, b: Seq<Seq<u64>>, key: Seq<Seq<u64>>, m: nat, n: nat)
    requires
        m <= a.len(),
        m <= b.len(),
        forall|i: int| 0 <= i < m ==> a[i] == b[i],
    ensures
        gdot(a, key, m, n) == gdot(b, key, m, n),
    decreases m,
{
    if m > 0 {
        lemma_gdot_prefix(a, b, key, (m - 1) as nat, n);
    }
}

/// Sum of the products of the first `m` ring elements of `c` with those of `key`.
fn masked_sum(c: &Vec<Poly>, key: &Vec<Poly>, m: usize, n: usize) -> (r: Poly)
    requires
        m <= c@.len(),
        m <= key@.len(),
        forall|j: int| 0 <= j < m ==> ring_elem(#[trigger] c@[j]@, n as nat),
        forall|j: int| 0 <= j < m ==> ring_elem(#[trigger] key@[j]@, n as nat),
    ensures
        r@ == gdot(polys_view(c@), polys_view(key@), m as nat, n as nat),
        ring_elem(r@, n as nat),
{
    let mut acc = Poly::zero(n);
    let mut j: usize = 0;
    while j < m
        invariant
            m <= c@.len(),
            m <= key@.len(),
            forall|i: int| 0 <= i < m ==> ring_elem(#[trigger] c@[i]@, n as nat),
            forall|i: int| 0 <= i < m ==> ring_elem(#[trigger] key@[i]@, n as nat),
            j <= m,
            acc@ == gdot(polys_view(c@), polys_view(key@), j as nat, n as nat),
            ring_elem(acc@, n as nat),
        decreases m - j,
    {
        let prod = c[j].mul(&key[j]);
        acc = acc.add(&prod);
        j = j + 1;
    }
    acc
}

impl Glwe {
    /// The noiseless ciphertext whose masks are zero and whose body is `body`: the test vector
    /// zero-padded to a ciphertext.
    pub fn trivial(body: &Poly, size: usize) -> (r: Glwe)
        requires
            size >= 1,
        ensures
            r@ == gtrivial(body@, size as nat),
    {
        let mut v: Vec<Poly> = Vec::new();
        let mut j: usize = 0;
        while j < size
            invariant
                j <= size,
                v@.len() == j,
                forall|i: int| 0 <= i < j ==> (#[trigger] v@[i])@ == gtrivial(body@, size as nat)[i],
            decreases size - j,
        {
            if j + 1 < size {
                v.push(Poly::zero(body.coeffs.len()));
            } else {
                v.push(body.copy());
            }
            j = j + 1;
        }
        let r = Glwe { polys: v };
        assert(r@ =~= gtrivial(body@, size as nat));
        r
    }

    /// A copy of the ciphertext.
    pub fn copy(&self) -> (r: Glwe)
        ensures
            r@ == self@,
    {
        let mut v: Vec<Poly> = Vec::new();
        let mut j: usize = 0;
        while j < self.polys.len()
            invariant
                j <= self.polys@.len(),
                v@.len() == j,
                forall|i: int| 0 <= i < j ==> (#[trigger] v@[i])@ == self@[i],
            decreases self.polys@.len() - j,
        {
            v.push(self.polys[j].copy());
            j = j + 1;
        }
        let r = Glwe { polys: v };
        assert(r@ =~= self@);
        r
    }

    pub fn add(&self, other: &Glwe, params: Params) -> (r: Glwe)
        requires
            glwe_wf(self@, params),
            glwe_wf(other@, params),
        ensures
            r@ == gadd(self@, other@),
            glwe_wf(r@, params),
    {
        let mut v: Vec<Poly> = Vec::new();
        let mut j: usize = 0;
        while j < params.glwe_size
            invariant
                glwe_wf(self@, params),
                glwe_wf(other@, params),
                j <= params.glwe_size,
                v@.len() == j,
                forall|i: int| 0 <= i < j ==> (#[trigger] v@[i])@ == gadd(self@, other@)[i],
                forall|i: int| 0 <= i < j ==> ring_elem((#[trigger] v@[i])@, params.ring_dim as nat),
            decreases params.glwe_size - j,
        {
            assert(ring_elem(self@[j as int], params.ring_dim as nat));
            assert(ring_elem(other@[j as int], params.ring_dim as nat));
            v.push(self.polys[j].add(&other.polys[j]));
            j = j + 1;
        }
        let r = Glwe { polys: v };
        assert(r@ =~= gadd(self@, other@));
        r
    }

    pub fn sub(&self, other: &Glwe, params: Params) -> (r: Glwe)
        requires
            glwe_wf(self@, params),
            glwe_wf(other@, params),
        ensures
            r@ == gsub(self@, other@),
            glwe_wf(r@, params),
    {
        let mut v: Vec<Poly> = Vec::new();
        let mut j: usize = 0;
        while j < params.glwe_size
            invariant
                glwe_wf(self@, params),
                glwe_wf(other@, params),
                j <= params.glwe_size,
                v@.len() == j,
                forall|i: int| 0 <= i < j ==> (#[trigger] v@[i])@ == gsub(self@, other@)[i],
                forall|i: int| 0 <= i < j ==> ring_elem((#[trigger] v@[i])@, params.ring_dim as nat),
            decreases params.glwe_size - j,
        {
            assert(ring_elem(self@[j as int], params.ring_dim as nat));
            assert(ring_elem(other@[j as int], params.ring_dim as nat));
            v.push(self.polys[j].sub(&other.polys[j]));
            j = j + 1;
        }
        let r = Glwe { polys: v };
        assert(r@ =~= gsub(self@, other@));
        r
    }

    /// Multiplies every ring element by X^s, for `0 <= s < 2N`.
    pub fn rotate(&self, s: usize, params: Params) -> (r: Glwe)
        requires
            params.wf(),
            glwe_wf(self@, params),
            s < 2 * params.ring_dim,
        ensures
            r@ == grot(self@, s as int),
            glwe_wf(r@, params),
    {
        let mut v: Vec<Poly> = Vec::new();
        let mut j: usize = 0;
        while j < params.glwe_size
            invariant
                params.wf(),
                glwe_wf(self@, params),
                s < 2 * params.ring_dim,
                j <= params.glwe_size,
                v@.len() == j,
                forall|i: int| 0 <= i < j ==> (#[trigger] v@[i])@ == grot(self@, s as int)[i],
                forall|i: int| 0 <= i < j ==> ring_elem((#[trigger] v@[i])@, params.ring_dim as nat),
            decreases params.glwe_size - j,
        {
            assert(ring_elem(self@[j as int], params.ring_dim as nat));
            v.push(self.polys[j].rotate(s));
            j = j + 1;
        }
        let r = Glwe { polys: v };
        assert(r@ =~= grot(self@, s as int));
        r
    }

    /// The phase under `key`: the message plus the noise for a ciphertext made under `key`.
    pub fn decrypt(&self, key: &Vec<Poly>, params: Params) -> (r: Poly)
        requires
            params.wf(),
            glwe_wf(self@, params),
            glwe_key_wf(polys_view(key@), params),
        ensures
            r@ == glwe_phase(polys_view(key@), self@),
            ring_elem(r@, params.ring_dim as nat),
    {
        let k = params.glwe_size - 1;
        assert(ring_elem(self@[k as int], params.ring_dim as nat));
        assert forall|j: int| 0 <= j < k implies ring_elem(#[trigger] self.polys@[j]@, params.ring_dim as nat) by {
            assert(ring_elem(self@[j], params.ring_dim as nat));
        }
        assert forall|j: int| 0 <= j < k implies ring_elem(#[trigger] key@[j]@, params.ring_dim as nat) by {
            assert(ring_elem(polys_view(key@)[j], params.ring_dim as nat));
        }
        let s = masked_sum(&self.polys, key, k, params.ring_dim);
        self.polys[k].sub(&s)
    }

    /// Encrypts `msg` under `key` with the given masks and noise.
    pub fn encrypt_with_masks(key: &Vec<Poly>, masks: Vec<Poly>, msg: &Poly, noise: &Poly, params: Params) -> (r: Glwe)
        requires
            params.wf(),
            glwe_key_wf(polys_view(key@), params),
            ring_vec(polys_view(masks@), params.mask_count(), params.ring_dim as nat),
            ring_elem(msg@, params.ring_dim as nat),
            ring_elem(noise@, params.ring_dim as nat),
        ensures
            r@ == polys_view(masks@).push(glwe_body(polys_view(key@), polys_view(masks@), msg@, noise@)),
            glwe_wf(r@, params),
    {
        let k = params.glwe_size - 1;
        assert forall|j: int| 0 <= j < k implies ring_elem(#[trigger] masks@[j]@, params.ring_dim as nat) by {
            assert(ring_elem(polys_view(masks@)[j], params.ring_dim as nat));
        }
        assert forall|j: int| 0 <= j < k implies ring_elem(#[trigger] key@[j]@, params.ring_dim as nat) by {
            assert(ring_elem(polys_view(key@)[j], params.ring_dim as nat));
        }
        let s = masked_sum(&masks, key, k, params.ring_dim);
        let body = s.add(msg).add(noise);
        let ghost old_masks = masks@;
        let mut polys = masks;
        polys.push(body);
        let r = Glwe { polys };
        assert(r@ =~= polys_view(old_masks).push(glwe_body(polys_view(key@), polys_view(old_masks), msg@, noise@)));
        r
    }

    /// Encrypts `msg` under `key` with freshly drawn uniform masks and the given noise.
    pub fn encrypt(key: &Vec<Poly>, msg: &Poly, noise: &Poly, params: Params) -> (r: Glwe)
        requires
            params.wf(),
            glwe_key_wf(polys_view(key@), params),
            ring_elem(msg@, params.ring_dim as nat),
            ring_elem(noise@, params.ring_dim as nat),
        ensures
            glwe_wf(r@, params),
            r@[params.mask_count() as int] == glwe_body(polys_view(key@), r@.take(params.mask_count() as int), msg@, noise@),
    {
        let masks = random_polys(params.glwe_size - 1, params.ring_dim);
        let ghost m = polys_view(masks@);
        let r = Glwe::encrypt_with_masks(key, masks, msg, noise, params);
        assert(r@.take(params.mask_count() as int) =~= m);
        r
    }

    /// The ciphertext's coefficients in order: ring element by ring element.
    pub fn flatten(&self) -> (r: Vec<u64>)
        ensures
            r@ == self@.flatten(),
    {
        let mut v: Vec<u64> = Vec::new();
        let mut j: usize = 0;
        while j < self.polys.len()
            invariant
                j <= self@.len(),
                v@ == self@.take(j as int).flatten(),
            decreases self@.len() - j,
        {
            let mut c = self.polys[j].copy();
            proof {
                lemma_flatten_push(self@.take(j as int), self@[j as int]);
                assert(self@.take(j as int).push(self@[j as int]) =~= self@.take(j + 1));
            }
            v.append(&mut c.coeffs);
            j = j + 1;
        }
        assert(self@.take(self@.len() as int) =~= self@);
        v
    }
}

/// Flattening after a push appends the pushed sequence.
pub proof fn lemma_flatten_push<A>(x: Seq<Seq<A>>, y: Seq<A>)
    ensures
        x.push(y).flatten() == x.flatten() + y,
{
    vstd::seq_lib::lemma_flatten_concat(x, seq![y]);
    assert(x.push(y) =~= x + seq![y]);
    seq![y].lemma_flatten_one_element();
}

/// Every coefficient stands for an integer of absolute value at most `bound`.
pub open spec fn small_poly(e: Seq<u64>, bound: u64) -> bool {
    forall|t: int| 0 <= t < e.len() ==> #[trigger] is_small(e[t], bound)
}

/// A ring element whose coefficients are drawn from [-bound, bound] (see `sample_noise`).
pub fn sample_noise_poly(n: usize, bound: u64) -> (r: Poly)
    requires
        bound < P / 2,
    ensures
        r@.len() == n,
        small_poly(r@, bound),
        canon(r@),
{
    let mut c: Vec<u64> = Vec::new();
    let mut t: usize = 0;
    while t < n
        invariant
            bound < P / 2,
            t <= n,
            c@.len() == t,
            small_poly(c@, bound),
            canon(c@),
        decreases n - t,
    {
        c.push(sample_noise(bound));
        t = t + 1;
    }
    Poly { coeffs: c }
}

/// `count` ring elements with uniformly drawn coefficients.
pub fn random_polys(count: usize, n: usize) -> (r: Vec<Poly>)
    ensures
        ring_vec(polys_view(r@), count as nat, n as nat),
{
    let mut v: Vec<Poly> = Vec::new();
    let mut j: usize = 0;
    while j < count
        invariant
            j <= count,
            v@.len() == j,
            forall|i: int| 0 <= i < j ==> ring_elem((#[trigger] v@[i])@, n as nat),
        decreases count - j,
    {
        let mut c: Vec<u64> = Vec::new();
        let mut t: usize = 0;
        while t < n
            invariant
                t <= n,
                c@.len() == t,
                canon(c@),
            decreases n - t,
        {
            c.push(random_field());
            t = t + 1;
        }
        v.push(Poly { coeffs: c });
        j = j + 1;
    }
    assert forall|i: int| 0 <= i < count implies ring_elem(#[trigger] polys_view(v@)[i], n as nat) by {
        assert(ring_elem(v@[i]@, n as nat));
    }
    v
}

/// A GLWE key: k uniformly drawn ring elements.
pub fn key_gen(params: Params) -> (r: Vec<Poly>)
    requires
        params.wf(),
    ensures
        glwe_key_wf(polys_view(r@), params),
{
    random_polys(params.glwe_size - 1, params.ring_dim)
}

/// The GLWE key whose coefficients, read in order, start with `bits` and are zero after them.
pub fn partial_key_from_bits(bits: &Vec<u64>, params: Params) -> (r: Vec<Poly>)
    requires
        params.wf(),
        bits@.len() <= params.mask_count() * params.ring_dim,
        binary(bits@),
    ensures
        polys_view(r@) == partial_key_of(bits@, params.mask_count(), params.ring_dim as nat),
        glwe_key_wf(polys_view(r@), params),
{
    let k = params.glwe_size - 1;
    let n = params.ring_dim;
    let ghost spec_key = partial_key_of(bits@, k as nat, n as nat);
    let mut v: Vec<Poly> = Vec::new();
    let mut j: usize = 0;
    while j < k
        invariant
            params.wf(),
            k == params.glwe_size - 1,
            n == params.ring_dim,
            binary(bits@),
            spec_key == partial_key_of(bits@, k as nat, n as nat),
            j <= k,
            v@.len() == j,
            forall|i: int| 0 <= i < j ==> (#[trigger] v@[i])@ == spec_key[i],
            forall|i: int| 0 <= i < j ==> ring_elem((#[trigger] v@[i])@, n as nat),
        decreases k - j,
    {
        let mut c: Vec<u64> = Vec::new();
        let mut t: usize = 0;
        assert(j * n <= MAX_GLWE_SIZE * MAX_RING_DIM) by (nonlinear_arith)
            requires
                j < k,
                k < MAX_GLWE_SIZE,
                n <= MAX_RING_DIM,
        ;
        while t < n
            invariant
                params.wf(),
                n == params.ring_dim,
                binary(bits@),
                j < k,
                j * n <= MAX_GLWE_SIZE * MAX_RING_DIM,
                spec_key == partial_key_of(bits@, k as nat, n as nat),
                t <= n,
                c@ == spec_key[j as int].take(t as int),
                canon(c@),
            decreases n - t,
        {
            let idx = j * n + t;
            if idx < bits.len() {
                c.push(bits[idx]);
            } else {
                c.push(0);
            }
            t = t + 1;
            assert(c@ =~= spec_key[j as int].take(t as int));
        }
        assert(c@ =~= spec_key[j as int]);
        v.push(Poly { coeffs: c });
        j = j + 1;
    }
    assert(polys_view(v@) =~= spec_key);
    v
}

/// A partial key of `lwe_dim` uniformly drawn bits (see `partial_key_from_bits`).
pub fn partial_key(params: Params) -> (r: Vec<Poly>)
    requires
        params.wf(),
    ensures
        exists|bits: Seq<u64>|
            bits.len() == params.lwe_dim && binary(bits) && polys_view(r@) == partial_key_of(
                bits,
                params.mask_count(),
                params.ring_dim as nat,
            ),
        glwe_key_wf(polys_view(r@), params),
{
    let mut bits: Vec<u64> = Vec::new();
    let mut i: usize = 0;
    while i < params.lwe_dim
        invariant
            i <= params.lwe_dim,
            bits@.len() == i,
            binary(bits@),
        decreases params.lwe_dim - i,
    {
        let x = random_u64_bit();
        bits.push(x);
        i = i + 1;
    }
    partial_key_from_bits(&bits, params)
}

/// A uniformly drawn bit.
fn random_u64_bit() -> (r: u64)
    ensures
        r <= 1,
{
    let x = crate::lwe::random_u64();
    x % 2
}

/// The LWE key that a partial key packs: its first `lwe_dim` coefficients, read in order.
pub fn flatten_partial_key(key: &Vec<Poly>, params: Params) -> (r: Vec<u64>)
    requires
        params.wf(),
        glwe_key_wf(polys_view(key@), params),
    ensures
        r@ == flatten_key(polys_view(key@), params.lwe_dim as nat, params.ring_dim as nat),
        canon(r@),
{
    let n = params.ring_dim;
    let k = params.glwe_size - 1;
    let ghost kv = polys_view(key@);
    let mut v: Vec<u64> = Vec::new();
    let mut i: usize = 0;
    while i < params.lwe_dim
        invariant
            params.wf(),
            n == params.ring_dim,
            k == params.glwe_size - 1,
            kv == polys_view(key@),
            glwe_key_wf(kv, params),
            i <= params.lwe_dim,
            v@ == flatten_key(kv, params.lwe_dim as nat, n as nat).take(i as int),
            canon(v@),
        decreases params.lwe_dim - i,
    {
        let j = i / n;
        let t = i % n;
        proof {
            assert(k * n == n * k) by (nonlinear_arith);
            vstd::arithmetic::div_mod::lemma_div_is_ordered(i as int, (n * k) as int, n as int);
            vstd::arithmetic::div_mod::lemma_div_multiples_vanish(k as int, n as int);
            if j == k {
                vstd::arithmetic::div_mod::lemma_fundamental_div_mod(i as int, n as int);
                assert(i >= k * n) by (nonlinear_arith)
                    requires
                        j == k,
                        i == n * j + t,
                        t >= 0,
                ;
            }
            assert(j < k);
            assert(ring_elem(kv[j as int], n as nat));
        }
        v.push(key[j].coeffs[t]);
        i = i + 1;
        assert(v@ =~= flatten_key(kv, params.lwe_dim as nat, n as nat).take(i as int));
    }
    assert(v@ =~= flatten_key(kv, params.lwe_dim as nat, n as nat));
    v
}

} // verus!
