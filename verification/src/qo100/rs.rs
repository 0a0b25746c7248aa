//! The CCSDS (255,223) Reed-Solomon code over GF(256), as AO-40's coded
//! telemetry uses it.
//!
//! AO-40 carries two of these per frame, each *shortened* to (160,128) by
//! notionally prefixing 95 zero symbols that are never transmitted, so one
//! codeword protects 128 bytes with 32 parity bytes and corrects up to 16 byte
//! errors anywhere in it.
//!
//! * field generator `F(x) = x^8 + x^7 + x^2 + x + 1` ([`GF_POLY`]),
//! * code generator roots `alpha^(11j)` for `j = 112..=143`: a first
//!   consecutive root of 112, and a step of `alpha^11` rather than `alpha`,
//! * conventional polynomial basis, **not** the CCSDS dual basis.
use crate::qo100::code::{
    changed_positions, code_root, corrected, corrects_sixteen_errors, decoding, degree, derivative,
    derivative_coef, differences, division_step, evaluator, generator_coef, horner_value,
    is_codeword, lemma_division_step, lemma_generator_range, lemma_horner_syndrome,
    lemma_parity_closes, lemma_peval_trim, lemma_position_root_injective, lemma_solved_counts,
    lemma_solves_sixteen, lemma_top_index_bound, locates, locator, magnitude, named_positions,
    names, only_codewords_are_decoded, padded, position_root, solved, syndrome, syndromes,
    top_index,
};
use crate::qo100::gf256::{
    apow, dlog, ginv, gmul, gpow, lemma_apow_add, lemma_apow_nonzero, lemma_apow_period,
    lemma_dlog, lemma_dlog_apow, lemma_gpow_apow, lemma_mul_assoc, lemma_mul_comm,
    lemma_mul_dist, lemma_mul_zero, lemma_xor, xtime,
};
use crate::qo100::massey::{
    adjusted, co, conv, lemma_massey, massey, massey_step, scaled, shifted, Register,
};
use crate::qo100::poly::{
    lemma_root_bound, lemma_xsum_ext, lemma_xsum_extend, peval, xsum,
};
use vstd::prelude::*;

verus! {

/// Field generator polynomial of GF(256): x^8 + x^7 + x^2 + x + 1.
pub const GF_POLY: u16 = 0x187;

/// Symbols in a full (unshortened) codeword.
pub const NN: usize = 255;

/// Parity symbols, and so `NROOTS / 2` correctable errors.
pub const NROOTS: usize = 32;

/// First consecutive root of the generator, as a multiple of [`PRIM`].
pub const FCR: usize = 112;

/// The generator's roots step by this power of `alpha`.
pub const PRIM: usize = 11;

/// Log of the zero element: "minus infinity", the value meaning "no term".
pub const A0: u8 = 255;

/// Payload symbols in one AO-40 codeword.
pub const K: usize = 128;

/// The symbols actually sent.
pub const N: usize = 160;

/// Zero symbols that shorten (255,223) to (160,128). Never transmitted.
pub const PAD: usize = 95;

/// The logarithm as the tables hold it.
pub open spec fn log_of(a: u8) -> u8 {
    if a == 0 {
        A0
    } else {
        dlog(a) as u8
    }
}

/// The element that a logarithm stands for.
pub open spec fn from_log(l: u8) -> u8 {
    if l == A0 {
        0
    } else {
        apow(l as nat)
    }
}

pub proof fn lemma_log_of(a: u8)
    ensures
        from_log(log_of(a)) == a,
        a != 0 ==> log_of(a) == dlog(a) && dlog(a) < 255,
{
    if a != 0 {
        lemma_dlog(a);
    }
}

/// GF(256) log and antilog tables: the whole of the field arithmetic.
pub struct Gf {
    pub alpha_to: [u8; NN],
    pub index_of: [u8; 256],
}

impl Gf {
    /// The tables hold the powers of `alpha` and their logarithms.
    pub open spec fn wf(&self) -> bool {
        &&& forall|i: int| 0 <= i < 255 ==> #[trigger] self.alpha_to@[i] == apow(i as nat)
        &&& forall|a: int| 0 <= a < 256 ==> #[trigger] self.index_of@[a] == log_of(a as u8)
    }

    pub fn new() -> (g: Gf)
        ensures
            g.wf(),
    {
        let mut alpha_to: [u8; NN] = [0;NN];
        let mut index_of: [u8; 256] = [0;256];
        let mut sr: u16 = 1;
        let mut i: usize = 0;
        while i < NN
            invariant
                i <= 255,
                sr < 256,
                sr as u8 == apow(i as nat),
                forall|j: int| 0 <= j < i ==> #[trigger] alpha_to@[j] == apow(j as nat),
                forall|j: nat| j < i ==> index_of@[#[trigger] apow(j) as int] == j,
            decreases 255 - i,
        {
            let ghost old_index = index_of@;
            index_of[sr as usize] = i as u8;
            alpha_to[i] = sr as u8;
            proof {
                assert forall|j: nat| j < i + 1 implies index_of@[#[trigger] apow(j) as int] == j by {
                    if j < i && apow(j) == apow(i as nat) {
                        lemma_dlog_apow(j);
                        lemma_dlog_apow(i as nat);
                    }
                }
            }
            let ghost before = sr;
            sr = sr << 1;
            if sr & 0x100 != 0 {
                sr = sr ^ GF_POLY;
            }
            sr = sr & 0xff;
            assert(({
                let a: u16 = before << 1;
                let b: u16 = if a & 0x100 != 0 {
                    a ^ 0x187
                } else {
                    a
                };
                (b & 0xff) < 256 && ((b & 0xff) as u8) == xtime(before as u8)
            })) by (bit_vector)
                requires
                    before < 256,
            ;
            i = i + 1;
        }
        index_of[0] = A0;
        proof {
            assert forall|a: int| 0 <= a < 256 implies #[trigger] index_of@[a] == log_of(a as u8) by {
                if a > 0 {
                    lemma_dlog(a as u8);
                    assert(apow(dlog(a as u8)) as int == a);
                }
            }
        }
        Gf { alpha_to, index_of }
    }

    /// `x mod 255`, for adding logs. Arguments here never exceed a few
    /// thousand, so the loop beats a division.
    pub fn modnn(&self, x: usize) -> (r: usize)
        ensures
            r == x % 255,
    {
        let mut x: usize = x;
        let ghost x0 = x;
        while x >= NN
            invariant
                x as int % 255 == x0 as int % 255,
            decreases x,
        {
            x = x - NN;
        }
        x
    }

    /// `alpha^a * alpha^b`, both given as logs, zero if either is the zero
    /// element.
    pub fn mul_log(&self, a: u8, b: u8) -> (r: u8)
        requires
            self.wf(),
        ensures
            r == gmul(from_log(a), from_log(b)),
    {
        proof {
            lemma_mul_zero(from_log(a));
            lemma_mul_zero(from_log(b));
            lemma_apow_add(a as nat, b as nat);
            lemma_apow_period((a as nat + b as nat) as nat);
        }
        if a == A0 || b == A0 {
            0
        } else {
            self.alpha_to[self.modnn(a as usize + b as usize)]
        }
    }

    /// The product of two elements.
    pub fn product(&self, a: u8, b: u8) -> (r: u8)
        requires
            self.wf(),
        ensures
            r == gmul(a, b),
    {
        proof {
            lemma_log_of(a);
            lemma_log_of(b);
        }
        self.mul_log(self.index_of[a as usize], self.index_of[b as usize])
    }

    /// The inverse of an element; zero for zero.
    pub fn inverse(&self, a: u8) -> (r: u8)
        requires
            self.wf(),
        ensures
            r == ginv(a),
    {
        if a == 0 {
            0
        } else {
            proof {
                lemma_log_of(a);
                lemma_apow_period((255 - dlog(a)) as nat);
            }
            self.alpha_to[self.modnn(NN - self.index_of[a as usize] as usize)]
        }
    }
}

/// The generator polynomial `g(x) = prod (x - alpha^(11j))` for
/// `j = FCR..FCR+NROOTS`, in log form, lowest order first. `g[0]` and
/// `g[NROOTS]` are both `alpha^0`.
pub fn generator(gf: &Gf) -> (r: [u8; 33])
    requires
        gf.wf(),
    ensures
        forall|i: int| 0 <= i < 33 ==> #[trigger] r@[i] == log_of(generator_coef(32, i)),
{
    // Built in value form by multiplying in one root at a time, then converted.
    let mut g: [u8; 33] = [0;33];
    g[0] = 1;
    let mut j: usize = 0;
    while j < NROOTS
        invariant
            j <= 32,
            gf.wf(),
            forall|i: int| 0 <= i < 33 ==> #[trigger] g@[i] == generator_coef(j as nat, i),
        decreases 32 - j,
    {
        // Multiply g(x) by (x - alpha^(PRIM (FCR+j))). Over GF(2), minus is plus.
        let rlog: u8 = gf.modnn(PRIM * (FCR + j)) as u8;
        let deg: usize = j + 1;
        proof {
            lemma_apow_period((11 * (112 + j)) as nat);
            assert(from_log(rlog) == code_root(j as int));
            lemma_generator_range(j as nat);
        }
        let mut next: [u8; 33] = [0;33];
        let mut i: usize = 1;
        while i <= deg
            invariant
                1 <= i <= deg + 1,
                deg == j + 1,
                j < 32,
                forall|k: int| 1 <= k < i ==> #[trigger] next@[k] == g@[k - 1],
                forall|k: int| i <= k < 33 ==> #[trigger] next@[k] == 0,
                next@[0] == 0,
            decreases deg + 1 - i,
        {
            next[i] = g[i - 1];
            i = i + 1;
        }
        let ghost moved = next@;
        let mut i: usize = 0;
        while i < deg
            invariant
                i <= deg,
                deg == j + 1,
                j < 32,
                gf.wf(),
                from_log(rlog) == code_root(j as int),
                forall|k: int| 0 <= k < i ==> #[trigger] next@[k] == moved[k] ^ gmul(
                    g@[k],
                    code_root(j as int),
                ),
                forall|k: int| i <= k < 33 ==> #[trigger] next@[k] == moved[k],
            decreases deg - i,
        {
            proof {
                lemma_log_of(g@[i as int]);
            }
            let m: u8 = gf.mul_log(gf.index_of[g[i] as usize], rlog);
            next[i] = next[i] ^ m;
            i = i + 1;
        }
        proof {
            assert forall|k: int| 0 <= k < 33 implies #[trigger] next@[k] == generator_coef(
                (j + 1) as nat,
                k,
            ) by {
                let c = code_root(j as int);
                lemma_mul_comm(c, generator_coef(j as nat, k));
                lemma_mul_zero(c);
                lemma_xor(moved[k], 0, 0);
                assert(generator_coef(j as nat, -1) == 0);
                if k > deg {
                    assert(generator_coef(j as nat, k) == 0);
                    assert(generator_coef(j as nat, k - 1) == 0);
                } else if k == deg {
                    assert(generator_coef(j as nat, k) == 0);
                }
            }
        }
        g = next;
        j = j + 1;
    }
    let mut out: [u8; 33] = [0;33];
    let mut i: usize = 0;
    while i < 33
        invariant
            i <= 33,
            gf.wf(),
            forall|k: int| 0 <= k < 33 ==> #[trigger] g@[k] == generator_coef(32, k),
            forall|k: int| 0 <= k < i ==> #[trigger] out@[k] == log_of(generator_coef(32, k)),
        decreases 33 - i,
    {
        assert(g@[i as int] == generator_coef(32, i as int));
        out[i] = gf.index_of[g[i] as usize];
        i = i + 1;
    }
    out
}

/// One AO-40 Reed-Solomon codec, tables built once.
pub struct Rs {
    pub gf: Gf,
    /// Generator coefficients in log form, lowest order first.
    pub genpoly: [u8; 33],
    /// Multiplicative inverse of [`PRIM`] modulo 255, which is what lets the
    /// Chien search step through error *positions* rather than through powers
    /// of `alpha`: this code's roots advance by `alpha^11`, so the two are not
    /// the same walk.
    pub iprim: usize,
}

impl Default for Rs {
    fn default() -> (r: Self)
        ensures
            r.wf(),
    {
        Rs::new()
    }
}

impl Rs {
    pub open spec fn wf(&self) -> bool {
        &&& self.gf.wf()
        &&& forall|i: int|
            0 <= i < 33 ==> #[trigger] self.genpoly@[i] == log_of(generator_coef(32, i))
        &&& self.iprim == 116
    }

    pub fn new() -> (r: Rs)
        ensures
            r.wf(),
    {
        let gf = Gf::new();
        let genpoly = generator(&gf);
        let mut iprim: usize = 1;
        while (PRIM * iprim) % NN != 1
            invariant
                1 <= iprim <= 116,
            decreases 116 - iprim,
        {
            iprim = iprim + 1;
        }
        proof {
            let q = (11 * iprim) as int / 255;
            assert(11 * iprim == 255 * q + 1);
        }
        Rs { gf, genpoly, iprim }
    }

    /// The 32 parity symbols for one 128-symbol block: the ones that make the
    /// block a codeword.
    pub fn encode(&self, data: &[u8; K]) -> (r: [u8; NROOTS])
        requires
            self.wf(),
        ensures
            is_codeword(data@ + r@),
    {
        let mut bb: [u8; NROOTS] = [0;NROOTS];
        proof {
            assert forall|t: int| 0 <= t < 32 implies horner_value(
                bb@,
                32,
                #[trigger] code_root(t),
            ) == gmul(horner_value(data@, 0, code_root(t)), gpow(code_root(t), 32)) by {
                lemma_zero_register(bb@, 32, code_root(t));
                lemma_mul_zero(gpow(code_root(t), 32));
            }
        }
        let mut n: usize = 0;
        while n < K
            invariant
                n <= 128,
                self.wf(),
                forall|t: int| 0 <= t < 32 ==> horner_value(bb@, 32, #[trigger] code_root(t))
                    == gmul(horner_value(data@, n as nat, code_root(t)), gpow(code_root(t), 32)),
            decreases 128 - n,
        {
            let ghost before = bb@;
            let d: u8 = data[n];
            let feedback: u8 = self.gf.index_of[(d ^ bb[0]) as usize];
            let ghost f = d ^ before[0];
            proof {
                lemma_log_of(f);
            }
            if feedback != A0 {
                let mut j: usize = 1;
                while j < NROOTS
                    invariant
                        1 <= j <= 32,
                        self.wf(),
                        from_log(feedback) == f,
                        forall|k: int| 1 <= k < j ==> #[trigger] bb@[k] == before[k] ^ gmul(
                            f,
                            generator_coef(32, 32 - k),
                        ),
                        forall|k: int| j <= k < 32 ==> #[trigger] bb@[k] == before[k],
                    decreases 32 - j,
                {
                    proof {
                        assert(self.genpoly@[32 - j] == log_of(generator_coef(32, 32 - j)));
                        lemma_log_of(generator_coef(32, 32 - j));
                    }
                    let m: u8 = self.gf.mul_log(feedback, self.genpoly[NROOTS - j]);
                    bb[j] = bb[j] ^ m;
                    j = j + 1;
                }
            }
            assert forall|k: int| 1 <= k < 32 implies #[trigger] bb@[k] == before[k] ^ gmul(
                f,
                generator_coef(32, 32 - k),
            ) by {
                lemma_mul_zero(generator_coef(32, 32 - k));
                lemma_xor(before[k], 0, 0);
            }
            let ghost fed = bb@;
            let mut j: usize = 0;
            while j < NROOTS - 1
                invariant
                    j <= 31,
                    forall|k: int| 0 <= k < j ==> #[trigger] bb@[k] == fed[k + 1],
                    forall|k: int| j <= k < 32 ==> #[trigger] bb@[k] == fed[k],
                decreases 31 - j,
            {
                bb[j] = bb[j + 1];
                j = j + 1;
            }
            bb[NROOTS - 1] = if feedback != A0 {
                proof {
                    assert(self.genpoly@[0] == log_of(generator_coef(32, 0)));
                    lemma_log_of(generator_coef(32, 0));
                }
                self.gf.mul_log(feedback, self.genpoly[0])
            } else {
                0
            };
            proof {
                lemma_mul_zero(generator_coef(32, 0));
                lemma_xor(gmul(f, generator_coef(32, 0)), 0, 0);
                assert forall|k: int| 0 <= k < 32 implies bb@[k] == division_step(
                    before,
                    d,
                )[k] by {
                    if k < 31 {
                        assert(fed[k + 1] == before[k + 1] ^ gmul(
                            f,
                            generator_coef(32, 32 - (k + 1)),
                        ));
                    }
                }
                assert(bb@ =~= division_step(before, d));
                assert forall|t: int| 0 <= t < 32 implies horner_value(
                    bb@,
                    32,
                    #[trigger] code_root(t),
                ) == gmul(
                    horner_value(data@, (n + 1) as nat, code_root(t)),
                    gpow(code_root(t), 32),
                ) by {
                    let z = code_root(t);
                    let h = horner_value(data@, n as nat, z);
                    let p = gpow(z, 32);
                    lemma_division_step(before, d, t);
                    // (h p) z + d p = (h z + d) p
                    lemma_mul_assoc(h, p, z);
                    lemma_mul_comm(p, z);
                    lemma_mul_assoc(h, z, p);
                    lemma_mul_dist(gmul(h, z), d, p);
                }
            }
            n = n + 1;
        }
        proof {
            assert forall|t: int| 0 <= t < 32 implies #[trigger] syndrome(
                padded(data@ + bb@),
                t,
            ) == 0 by {
                assert(horner_value(bb@, 32, code_root(t)) == gmul(
                    horner_value(data@, 128, code_root(t)),
                    gpow(code_root(t), 32),
                ));
                lemma_parity_closes(data@, bb@, code_root(t));
                lemma_horner_syndrome(padded(data@ + bb@), t);
            }
        }
        bb
    }

    /// The value at `x` of the polynomial with the first `d` of the given
    /// coefficients.
    fn value_at(&self, p: &[u8; 33], d: usize, x: u8) -> (r: u8)
        requires
            self.wf(),
            d <= 33,
        ensures
            r == peval(co(p@), d as nat, x),
    {
        let ghost f = |i: int| gmul(co(p@)(i), gpow(x, i as nat));
        let mut acc: u8 = 0;
        let mut w: u8 = 1;
        let mut i: usize = 0;
        while i < d
            invariant
                i <= d <= 33,
                self.wf(),
                f == (|i: int| gmul(co(p@)(i), gpow(x, i as nat))),
                w == gpow(x, i as nat),
                acc == xsum(f, i as nat),
            decreases d - i,
        {
            let t: u8 = self.gf.product(p[i], w);
            assert(f(i as int) == t);
            acc = acc ^ t;
            w = self.gf.product(w, x);
            i = i + 1;
        }
        acc
    }

    /// The received polynomial evaluated at each root of the generator.
    fn syndromes_of(&self, cw: &[u8; N]) -> (r: [u8; NROOTS])
        requires
            self.wf(),
        ensures
            r@ == syndromes(padded(cw@)),
    {
        let ghost word = padded(cw@);
        let mut syn: [u8; NROOTS] = [0;NROOTS];
        let mut i: usize = 0;
        while i < NROOTS
            invariant
                i <= 32,
                self.wf(),
                word == padded(cw@),
                forall|k: int| 0 <= k < i ==> #[trigger] syn@[k] == syndrome(word, k),
            decreases 32 - i,
        {
            let root: usize = self.gf.modnn((FCR + i) * PRIM);
            let ghost z = code_root(i as int);
            proof {
                lemma_apow_period((11 * (112 + i)) as nat);
                assert(apow(root as nat) == z);
                lemma_zero_register(word, 95, z);
            }
            let mut acc: u8 = 0;
            let mut k: usize = 0;
            while k < N
                invariant
                    k <= 160,
                    self.wf(),
                    root < 255,
                    apow(root as nat) == z,
                    word == padded(cw@),
                    acc == horner_value(word, (95 + k) as nat, z),
                decreases 160 - k,
            {
                let d: u8 = cw[k];
                proof {
                    assert((96 + k) as nat == (95 + k) as nat + 1);
                    assert(horner_value(word, (96 + k) as nat, z) == gmul(acc, z) ^ word[95 + k]);
                    lemma_mul_zero(z);
                    lemma_xor(d, 0, 0);
                    assert(word[95 + k] == d);
                    lemma_log_of(acc);
                    if acc != 0 {
                        lemma_apow_add(dlog(acc), root as nat);
                        lemma_apow_period((dlog(acc) + root) as nat);
                    }
                    lemma_xor(gmul(acc, z), d, 0);
                }
                acc = if acc == 0 {
                    d
                } else {
                    d ^ self.gf.alpha_to[self.gf.modnn(self.gf.index_of[acc as usize] as usize + root)]
                };
                k = k + 1;
            }
            proof {
                lemma_horner_syndrome(word, i as int);
            }
            syn[i] = acc;
            i = i + 1;
        }
        assert(syn@ =~= syndromes(word));
        syn
    }

    /// What the register `lambda` owes at syndrome `n`.
    fn discrepancy_of(&self, lambda: &[u8; 33], s: &[u8; NROOTS], n: usize) -> (r: u8)
        requires
            self.wf(),
            n < 32,
        ensures
            r == conv(co(lambda@), co(s@), n as int),
    {
        let ghost f = |i: int| gmul(co(lambda@)(i), co(s@)(n - i));
        let mut acc: u8 = 0;
        let mut i: usize = 0;
        while i <= n
            invariant
                i <= n + 1,
                n < 32,
                self.wf(),
                f == (|i: int| gmul(co(lambda@)(i), co(s@)(n - i))),
                acc == xsum(f, i as nat),
            decreases n + 1 - i,
        {
            let t: u8 = self.gf.product(lambda[i], s[n - i]);
            assert(f(i as int) == t);
            acc = acc ^ t;
            i = i + 1;
        }
        proof {
            assert forall|i: int| n + 1 <= i < 33 implies #[trigger] f(i) == 0 by {
                lemma_mul_zero(co(lambda@)(i));
            }
            lemma_xsum_extend(f, (n + 1) as nat, 33);
        }
        acc
    }

    /// Berlekamp-Massey: the shortest shift register that generates the
    /// syndrome sequence is the error locator polynomial.
    fn locator_of(&self, s: &[u8; NROOTS]) -> (r: [u8; 33])
        requires
            self.wf(),
        ensures
            r@ == locator(s@),
    {
        let mut lambda: [u8; 33] = [0;33];
        lambda[0] = 1;
        let mut b: [u8; 33] = lambda;
        let mut el: usize = 0;
        let mut n: usize = 0;
        proof {
            assert(lambda@ =~= massey(s@, 0).lambda);
            assert(b@ =~= massey(s@, 0).prior);
        }
        while n < NROOTS
            invariant
                n <= 32,
                self.wf(),
                massey(s@, n as nat) == (Register { lambda: lambda@, prior: b@, len: el as nat }),
                el <= n,
            decreases 32 - n,
        {
            let ghost reg = massey(s@, n as nat);
            let ghost next = massey(s@, (n + 1) as nat);
            proof {
                lemma_massey(s@, (n + 1) as nat);
                assert(next == massey_step(reg, s@, n as nat));
            }
            let discr: u8 = self.discrepancy_of(&lambda, s, n);
            let mut up: [u8; 33] = [0;33];
            let mut i: usize = 1;
            while i < 33
                invariant
                    1 <= i <= 33,
                    up@[0] == 0,
                    forall|k: int| 1 <= k < i ==> #[trigger] up@[k] == b@[k - 1],
                decreases 33 - i,
            {
                up[i] = b[i - 1];
                i = i + 1;
            }
            assert(up@ =~= shifted(b@));
            if discr == 0 {
                b = up;
            } else {
                let mut t: [u8; 33] = [0;33];
                let mut i: usize = 0;
                while i < 33
                    invariant
                        i <= 33,
                        self.wf(),
                        forall|k: int| 0 <= k < i ==> #[trigger] t@[k] == lambda@[k] ^ gmul(
                            discr,
                            up@[k],
                        ),
                    decreases 33 - i,
                {
                    let m: u8 = self.gf.product(discr, up[i]);
                    t[i] = lambda[i] ^ m;
                    i = i + 1;
                }
                assert(t@ =~= adjusted(reg.lambda, reg.prior, discr));
                if 2 * el <= n {
                    el = n + 1 - el;
                    let inv: u8 = self.gf.inverse(discr);
                    let mut i: usize = 0;
                    while i < 33
                        invariant
                            i <= 33,
                            self.wf(),
                            inv == ginv(discr),
                            forall|k: int| 0 <= k < i ==> #[trigger] b@[k] == gmul(
                                lambda@[k],
                                inv,
                            ),
                        decreases 33 - i,
                    {
                        b[i] = self.gf.product(lambda[i], inv);
                        i = i + 1;
                    }
                    assert(b@ =~= scaled(reg.lambda, discr));
                } else {
                    b = up;
                }
                lambda = t;
            }
            n = n + 1;
        }
        lambda
    }

    /// The highest order at which the locator has a term.
    fn degree_of(&self, lambda: &[u8; 33]) -> (r: usize)
        ensures
            r == degree(lambda@),
            r < 33,
    {
        let mut n: usize = 33;
        while n > 1 && lambda[n - 1] == 0
            invariant
                1 <= n <= 33,
                top_index(lambda@, n as nat) == degree(lambda@),
            decreases n,
        {
            n = n - 1;
        }
        n - 1
    }

    /// Chien search: tries every position and keeps the ones that the locator
    /// names. `None` when they are fewer than its degree.
    fn positions_of(&self, lambda: &[u8; 33], deg: usize) -> (r: Option<Vec<usize>>)
        requires
            self.wf(),
            lambda@[0] == 1,
            deg == degree(lambda@),
            0 < deg < 33,
        ensures
            r is Some <==> named_positions(lambda@).len() == degree(lambda@),
            r matches Some(v) ==> {
                &&& v@.no_duplicates()
                &&& forall|k: usize| #[trigger] v@.contains(k) <==> names(lambda@, k as int)
            },
    {
        let ghost all = named_positions(lambda@);
        proof {
            lemma_top_index_bound(lambda@, 33);
            lemma_named_bound(lambda@, deg as nat);
        }
        let mut loc: Vec<usize> = Vec::new();
        let mut k: usize = self.iprim - 1;
        let mut i: usize = 1;
        while i <= NN && loc.len() < deg
            invariant
                1 <= i <= 256,
                self.wf(),
                0 < deg < 33,
                k as int == (116 * i - 1) % 255,
                loc@.no_duplicates(),
                loc.len() <= deg,
                forall|j: int| 0 <= j < loc.len() ==> names(lambda@, #[trigger] loc@[j] as int)
                    && exists|m: int| 1 <= m < i && #[trigger] ((116 * m - 1) % 255) == loc@[j],
                forall|m: int|
                    1 <= m < i && names(lambda@, #[trigger] ((116 * m - 1) % 255))
                        ==> loc@.contains(((116 * m - 1) % 255) as usize),
                deg == degree(lambda@),
                forall|j: int| deg < j < 33 ==> #[trigger] lambda@[j] == 0,
            decreases 256 - i,
        {
            let x: u8 = self.gf.alpha_to[self.gf.modnn(i)];
            proof {
                lemma_walk(i as int);
                lemma_apow_period(i as nat);
                lemma_apow_period((11 * (k + 1)) as nat);
                assert(x == position_root(k as int));
                lemma_peval_trim(co(lambda@), (deg + 1) as nat, 33, x);
            }
            let q: u8 = self.value_at(lambda, deg + 1, x);
            let ghost before = loc@;
            if q == 0 {
                proof {
                    assert(names(lambda@, k as int));
                    assert forall|j: int| 0 <= j < loc.len() implies loc@[j] != k by {
                        let m = choose|m: int|
                            1 <= m < i && #[trigger] ((116 * m - 1) % 255) == loc@[j];
                        if loc@[j] == k {
                            lemma_walk_distinct(m, i as int);
                        }
                    }
                }
                loc.push(k);
            }
            proof {
                assert forall|j: int| 0 <= j < loc.len() implies names(
                    lambda@,
                    #[trigger] loc@[j] as int,
                ) && exists|m: int|
                    1 <= m < i + 1 && #[trigger] ((116 * m - 1) % 255) == loc@[j] by {
                    if j < before.len() {
                        let m = choose|m: int|
                            1 <= m < i && #[trigger] ((116 * m - 1) % 255) == before[j];
                        assert((116 * m - 1) % 255 == loc@[j]);
                    } else {
                        assert((116 * i as int - 1) % 255 == loc@[j]);
                    }
                }
                assert forall|m: int|
                    1 <= m < i + 1 && names(lambda@, #[trigger] ((116 * m - 1) % 255)) implies
                    loc@.contains(((116 * m - 1) % 255) as usize) by {
                    let at = ((116 * m - 1) % 255) as usize;
                    if m < i {
                        assert(before.contains(at));
                        let j = choose|j: int| 0 <= j < before.len() && before[j] == at;
                        assert(loc@[j] == at);
                    } else {
                        assert(at == k);
                        assert(loc@[loc@.len() - 1] == at);
                    }
                }
            }
            k = self.gf.modnn(k + self.iprim);
            i = i + 1;
        }
        proof {
            let found = loc@.map_values(|u: usize| u as int);
            assert(found.no_duplicates()) by {
                assert forall|a: int, b: int|
                    0 <= a < found.len() && 0 <= b < found.len() && a != b implies found[a]
                    != found[b] by {
                    assert(loc@[a] != loc@[b]);
                }
            }
            found.unique_seq_to_set();
            assert(found.to_set().subset_of(all)) by {
                assert forall|y: int| found.to_set().contains(y) implies all.contains(y) by {
                    let j = choose|j: int| 0 <= j < found.len() && found[j] == y;
                    assert(names(lambda@, loc@[j] as int));
                }
            }
            if loc.len() < deg {
                // Every position was tried.
                assert(all.subset_of(found.to_set())) by {
                    assert forall|y: int| all.contains(y) implies found.to_set().contains(y) by {
                        lemma_walk_onto(y);
                        let m = choose|m: int|
                            1 <= m <= 255 && #[trigger] ((116 * m - 1) % 255) == y;
                        assert(loc@.contains(y as usize));
                        let j = choose|j: int| 0 <= j < loc@.len() && loc@[j] == y as usize;
                        assert(found[j] == y);
                    }
                }
                assert(all =~= found.to_set());
            } else {
                vstd::set_lib::lemma_len_subset(found.to_set(), all);
                vstd::set_lib::lemma_subset_equality(found.to_set(), all);
            }
            assert forall|u: usize| #[trigger] loc@.contains(u) <==> names(lambda@, u as int) by {
                if loc@.contains(u) {
                    let j = choose|j: int| 0 <= j < loc@.len() && loc@[j] == u;
                    assert(names(lambda@, loc@[j] as int));
                }
                if names(lambda@, u as int) {
                    assert(all.contains(u as int));
                    assert(found.to_set().contains(u as int));
                    let j = choose|j: int| 0 <= j < found.len() && found[j] == u as int;
                    assert(loc@[j] == u);
                }
            }
        }
        if loc.len() == deg {
            Some(loc)
        } else {
            None
        }
    }

    /// Forney: the error at a position that the locator names, or `None` when
    /// the derivative is zero there.
    fn magnitude_at(
        &self,
        s: &[u8; NROOTS],
        lambda: &[u8; 33],
        deg: usize,
        k: usize,
    ) -> (r: Option<u8>)
        requires
            self.wf(),
            k < 255,
            0 < deg < 33,
            deg == degree(lambda@),
        ensures
            r is Some <==> derivative(lambda@, position_root(k as int)) != 0,
            r matches Some(m) ==> m == magnitude(s@, lambda@, k as int),
    {
        let root: usize = self.gf.modnn(PRIM * (k + 1));
        let x: u8 = self.gf.alpha_to[root];
        let ghost z = position_root(k as int);
        proof {
            lemma_apow_period((11 * (k + 1)) as nat);
            assert(x == z);
        }
        // The evaluator's coefficients, and its value.
        let mut omega: [u8; 33] = [0;33];
        let mut i: usize = 0;
        while i < deg && i < NROOTS
            invariant
                i <= deg,
                i <= 32,
                deg < 33,
                self.wf(),
                forall|j: int| 0 <= j < i ==> #[trigger] omega@[j] == conv(co(lambda@), co(s@), j),
            decreases 33 - i,
        {
            omega[i] = self.discrepancy_of(lambda, s, i);
            i = i + 1;
        }
        let num1: u8 = self.value_at(&omega, deg, x);
        proof {
            let om = |i: int| conv(co(lambda@), co(s@), i);
            lemma_xsum_ext(
                |i: int| gmul(co(omega@)(i), gpow(x, i as nat)),
                |i: int| gmul(om(i), gpow(x, i as nat)),
                deg as nat,
            );
            assert(num1 == evaluator(s@, lambda@, z));
        }
        let num2: u8 = self.gf.alpha_to[self.gf.modnn(root * (FCR - 1) + NN)];
        proof {
            lemma_gpow_apow(root as nat, 111);
            lemma_apow_period((root * 111) as nat);
            lemma_apow_period((root * 111 + 255) as nat);
            assert(x == apow(root as nat));
            assert(num2 == gpow(z, 111));
        }
        // The derivative over GF(2) keeps only the odd-order terms.
        let mut odd: [u8; 33] = [0;33];
        let mut i: usize = 0;
        while i < 32
            invariant
                i <= 32,
                i % 2 == 0,
                forall|j: int| 0 <= j < i ==> #[trigger] odd@[j] == derivative_coef(co(lambda@), j),
                forall|j: int| i <= j < 33 ==> #[trigger] odd@[j] == 0,
            decreases 32 - i,
        {
            odd[i] = lambda[i + 1];
            i = i + 2;
        }
        let den: u8 = self.value_at(&odd, 32, x);
        proof {
            let dc = |i: int| derivative_coef(co(lambda@), i);
            lemma_xsum_ext(
                |i: int| gmul(co(odd@)(i), gpow(x, i as nat)),
                |i: int| gmul(dc(i), gpow(x, i as nat)),
                32,
            );
            assert(den == derivative(lambda@, z));
        }
        if den == 0 {
            return None; // a singular evaluator: not a real error pattern
        }
        Some(self.gf.product(self.gf.product(num1, num2), self.gf.inverse(den)))
    }

    /// The received symbols with the errors that the locator finds taken out, and
    /// their number.
    fn solve(&self, cw: &[u8; N]) -> (r: Option<([u8; N], usize)>)
        requires
            self.wf(),
        ensures
            r is Some <==> solved(cw@) is Some,
            r matches Some((got, n)) ==> solved(cw@) == Some((got@, n as nat)),
    {
        reveal(solved);
        let ghost received = cw@;
        let ghost word = padded(received);
        let syn: [u8; NROOTS] = self.syndromes_of(cw);
        let ghost s = syn@;
        // All zero means it is already a codeword and there is nothing to do.
        let mut clean: bool = true;
        let mut i: usize = 0;
        while i < NROOTS
            invariant
                i <= 32,
                clean <==> forall|k: int| 0 <= k < i ==> #[trigger] syn@[k] == 0,
            decreases 32 - i,
        {
            if syn[i] != 0 {
                clean = false;
            }
            i = i + 1;
        }
        proof {
            if clean {
                assert forall|k: int| 0 <= k < 32 implies #[trigger] syndrome(word, k) == 0 by {
                    assert(syn@[k] == 0);
                }
            }
            if is_codeword(received) {
                assert forall|k: int| 0 <= k < 32 implies #[trigger] syn@[k] == 0 by {
                    assert(syndrome(word, k) == 0);
                }
            }
        }
        if clean {
            return Some((*cw, 0));
        }
        let lambda: [u8; 33] = self.locator_of(&syn);
        proof {
            lemma_massey(s, 32);
        }
        let deg: usize = self.degree_of(&lambda);
        if deg == 0 {
            return None;
        }
        let loc: Vec<usize> = match self.positions_of(&lambda, deg) {
            // Fewer roots than the locator's degree means the error pattern is
            // not one this code can describe: more errors than it can carry.
            None => {
                return None;
            },
            Some(v) => v,
        };
        let mut data: [u8; NN] = [0;NN];
        let mut i: usize = 0;
        while i < N
            invariant
                i <= 160,
                received == cw@,
                forall|k: int| 0 <= k < 95 ==> #[trigger] data@[k] == 0,
                forall|k: int| 95 <= k < 95 + i ==> #[trigger] data@[k] == received[k - 95],
            decreases 160 - i,
        {
            data[PAD + i] = cw[i];
            i = i + 1;
        }
        assert(data@ =~= word);
        let ghost changed = |n: int|
            Set::new(|k: int| loc@.take(n).contains(k as usize) && 0 <= k < 255 && magnitude(s, lambda@, k) != 0);
        let mut fixed: usize = 0;
        let mut j: usize = 0;
        assert(changed(0) =~= Set::empty());
        while j < loc.len()
            invariant
                j <= loc.len(),
                self.wf(),
                s == syn@,
                word == padded(received),
                received == cw@,
                lambda@ == locator(s),
                s == syndromes(word),
                !is_codeword(received),
                deg == degree(lambda@),
                0 < deg < 33,
                loc@.no_duplicates(),
                forall|k: usize| #[trigger] loc@.contains(k) <==> names(lambda@, k as int),
                forall|i: int|
                    0 <= i < j ==> derivative(
                        lambda@,
                        position_root(#[trigger] loc@[i] as int),
                    ) != 0,
                forall|k: int|
                    0 <= k < 255 ==> #[trigger] data@[k] == (if loc@.take(j as int).contains(
                        k as usize,
                    ) {
                        word[k] ^ magnitude(s, lambda@, k)
                    } else {
                        word[k]
                    }),
                fixed <= j,
                fixed == changed(j as int).len(),
                changed(j as int).finite(),
                changed == (|n: int|
                    Set::new(|k: int| loc@.take(n).contains(k as usize) && 0 <= k < 255 && magnitude(s, lambda@, k) != 0)),
            decreases loc.len() - j,
        {
            let k: usize = loc[j];
            proof {
                assert(loc@.contains(k));
                assert(names(lambda@, k as int));
                assert(!loc@.take(j as int).contains(k)) by {
                    if loc@.take(j as int).contains(k) {
                        let i = choose|i: int| 0 <= i < j && loc@.take(j as int)[i] == k;
                        assert(loc@[i] == loc@[j as int]);
                    }
                }
                assert forall|u: usize| #[trigger]
                    loc@.take(j + 1).contains(u) <==> loc@.take(j as int).contains(u) || u == k by {
                    let a = loc@.take(j + 1);
                    let b = loc@.take(j as int);
                    if a.contains(u) {
                        let i = choose|i: int| 0 <= i < a.len() && a[i] == u;
                        if i < j {
                            assert(b[i] == u);
                        }
                    }
                    if b.contains(u) {
                        let i = choose|i: int| 0 <= i < b.len() && b[i] == u;
                        assert(a[i] == u);
                    }
                    assert(a[j as int] == k);
                }
            }
            let mag: u8 = match self.magnitude_at(&syn, &lambda, deg, k) {
                None => {
                    proof {
                        reveal(solved);
                        assert(!locates(lambda@));
                    }
                    return None;
                },
                Some(m) => m,
            };
            data[k] = data[k] ^ mag;
            proof {
                let a = changed(j as int);
                let b = changed(j + 1);
                if mag != 0 {
                    assert(b =~= a.insert(k as int));
                    assert(!a.contains(k as int));
                } else {
                    assert(b =~= a);
                }
                assert forall|y: int| 0 <= y < 255 implies #[trigger] data@[y] == (
                if loc@.take(j + 1).contains(y as usize) {
                    word[y] ^ magnitude(s, lambda@, y)
                } else {
                    word[y]
                }) by {}
            }
            if mag != 0 {
                fixed = fixed + 1;
            }
            j = j + 1;
        }
        proof {
            assert(loc@.take(loc@.len() as int) =~= loc@);
            assert(locates(lambda@)) by {
                assert forall|k: int| #[trigger] names(lambda@, k) implies derivative(
                    lambda@,
                    position_root(k),
                ) != 0 by {
                    assert(loc@.contains(k as usize));
                    let i = choose|i: int| 0 <= i < loc@.len() && loc@[i] == k as usize;
                    assert(derivative(lambda@, position_root(loc@[i] as int)) != 0);
                }
            }
            assert(data@ =~= corrected(word, s, lambda@)) by {
                assert forall|k: int| 0 <= k < 255 implies data@[k] == corrected(
                    word,
                    s,
                    lambda@,
                )[k] by {
                    assert(loc@.contains(k as usize) <==> names(lambda@, k));
                }
            }
            assert(changed(loc@.len() as int) =~= changed_positions(s, lambda@)) by {
                assert forall|k: int|
                    changed(loc@.len() as int).contains(k) <==> changed_positions(
                        s,
                        lambda@,
                    ).contains(k) by {
                    if 0 <= k < 255 {
                        assert(loc@.contains(k as usize) <==> names(lambda@, k));
                    }
                }
            }
        }
        // A correction inside the shortening zeros fits the parity but not the
        // transmission.
        let mut i: usize = 0;
        while i < PAD
            invariant
                i <= 95,
                forall|k: int| 0 <= k < i ==> #[trigger] data@[k] == 0,
                received == cw@,
                !is_codeword(received),
                s == syndromes(padded(received)),
                lambda@ == locator(s),
                data@ == corrected(padded(received), s, lambda@),
            decreases 95 - i,
        {
            if data[i] != 0 {
                proof {
                    reveal(solved);
                    assert(corrected(padded(received), s, lambda@)[i as int] != 0);
                }
                return None;
            }
            i = i + 1;
        }
        let mut got: [u8; N] = [0;N];
        let mut i: usize = 0;
        while i < N
            invariant
                i <= 160,
                forall|k: int| 0 <= k < i ==> #[trigger] got@[k] == data@[95 + k],
            decreases 160 - i,
        {
            got[i] = data[PAD + i];
            i = i + 1;
        }
        assert(got@ =~= data@.subrange(95, 255));
        Some((got, fixed))
    }

    /// Whether the symbols are a codeword.
    fn is_clean(&self, cw: &[u8; N]) -> (r: bool)
        requires
            self.wf(),
        ensures
            r == is_codeword(cw@),
    {
        let syn: [u8; NROOTS] = self.syndromes_of(cw);
        let mut i: usize = 0;
        while i < NROOTS
            invariant
                i <= 32,
                syn@ == syndromes(padded(cw@)),
                forall|k: int| 0 <= k < i ==> #[trigger] syndrome(padded(cw@), k) == 0,
            decreases 32 - i,
        {
            assert(syn@[i as int] == syndrome(padded(cw@), i as int));
            if syn[i] != 0 {
                return false;
            }
            i = i + 1;
        }
        true
    }

    /// Correct a received codeword in place, returning how many symbol errors
    /// were put right, or `None`, with the word as it was, when it could not be
    /// decoded: when more than sixteen symbols would have to change.
    ///
    /// Past the code's strength the locator can still name as many positions as
    /// its degree says without describing an error pattern, so what it leads to
    /// is only believed if it is a codeword.
    ///
    /// `cw` is the 160 symbols actually on the air: 128 data then 32 parity.
    pub fn decode(&self, cw: &mut [u8; N]) -> (r: Option<usize>)
        requires
            self.wf(),
        ensures
            r is Some <==> decoding(old(cw)@) is Some,
            r matches Some(n) ==> decoding(old(cw)@) == Some((final(cw)@, n as nat)),
            r is None ==> final(cw)@ == old(cw)@,
            r matches Some(n) ==> is_codeword(final(cw)@) && n == differences(
                final(cw)@,
                old(cw)@,
            ).len() && n <= 16,
            r is None ==> forall|sent: Seq<u8>| #[trigger]
                is_codeword(sent) ==> differences(sent, old(cw)@).len() > 16,
    {
        let ghost received = cw@;
        proof {
            only_codewords_are_decoded(received);
            if decoding(received) is Some {
                lemma_solves_sixteen((decoding(received)->0).0, received);
            }
        }
        let (got, fixed): ([u8; N], usize) = match self.solve(cw) {
            None => {
                return None;
            },
            Some(g) => g,
        };
        if fixed > NROOTS / 2 || !self.is_clean(&got) {
            return None;
        }
        proof {
            lemma_solved_counts(received);
            corrects_sixteen_errors(got@, received);
        }
        *cw = got;
        Some(fixed)
    }
}

/// The position that root `i` belongs to.
proof fn lemma_walk(i: int)
    requires
        1 <= i <= 255,
    ensures
        apow((11 * ((116 * i - 1) % 255 + 1)) as nat) == apow(i as nat),
        0 <= (116 * i - 1) % 255 < 255,
        (116 * (i + 1) - 1) % 255 == ((116 * i - 1) % 255 + 116) % 255,
{
    let k = (116 * i - 1) % 255;
    let q = (116 * i - 1) / 255;
    // 11 (k + 1) = 11 (116 i - 255 q) = i + 255 (5 i - 11 q)
    let a = 11 * (k + 1);
    let t = 5 * i - 11 * q;
    assert(116 * i - 1 == 255 * q + k);
    assert(a == i + 255 * t);
    lemma_apow_period(a as nat);
    lemma_apow_period(i as nat);
    vstd::arithmetic::div_mod::lemma_mod_multiples_vanish(t, i, 255);
    vstd::arithmetic::div_mod::lemma_mod_multiples_vanish(q, k + 116, 255);
}

proof fn lemma_walk_distinct(m: int, i: int)
    requires
        1 <= m < i <= 255,
    ensures
        (116 * m - 1) % 255 != (116 * i - 1) % 255,
{
    let p = (116 * m - 1) / 255;
    let q = (116 * i - 1) / 255;
    let a = (116 * m - 1) % 255;
    let b = (116 * i - 1) % 255;
    assert(116 * m - 1 == 255 * p + a);
    assert(116 * i - 1 == 255 * q + b);
    if a == b {
        assert(116 * (i - m) == 255 * (q - p));
        let u = 11 * (q - p) - 5 * (i - m);
        assert(i - m == 255 * u);
    }
}

proof fn lemma_walk_onto(k: int)
    requires
        0 <= k < 255,
    ensures
        exists|m: int| 1 <= m <= 255 && #[trigger] ((116 * m - 1) % 255) == k,
{
    let r = (11 * (k + 1)) % 255;
    let q = (11 * (k + 1)) / 255;
    assert(11 * (k + 1) == 255 * q + r);
    let m = if r == 0 {
        255
    } else {
        r
    };
    let q2 = if r == 0 {
        q - 1
    } else {
        q
    };
    assert(m == 11 * (k + 1) - 255 * q2);
    // 116 m - 1 = k + 255 (5 (k + 1) - 116 q2)
    let t = 5 * (k + 1) - 116 * q2;
    assert(116 * m - 1 == k + 255 * t);
    assert((116 * m - 1) % 255 == k);
}

/// The elements of a finite set, each once.
proof fn lemma_listing(s: Set<int>) -> (r: Seq<int>)
    requires
        s.finite(),
    ensures
        r.no_duplicates(),
        r.len() == s.len(),
        forall|k: int| #[trigger] r.contains(k) ==> s.contains(k),
    decreases s.len(),
{
    if s.len() == 0 {
        Seq::empty()
    } else {
        let x = s.choose();
        let t = lemma_listing(s.remove(x));
        let r = t.push(x);
        assert forall|k: int| #[trigger] r.contains(k) implies s.contains(k) by {
            let i = choose|i: int| 0 <= i < r.len() && r[i] == k;
            if i < t.len() {
                assert(t.contains(t[i]));
            }
        }
        assert forall|i: int, j: int| 0 <= i < r.len() && 0 <= j < r.len() && i != j implies r[i]
            != r[j] by {
            if i < t.len() {
                assert(t.contains(t[i]));
            }
            if j < t.len() {
                assert(t.contains(t[j]));
            }
        }
        r
    }
}

/// A locator names no more positions than its degree.
proof fn lemma_named_bound(lambda: Seq<u8>, deg: nat)
    requires
        lambda.len() == 33,
        lambda[0] == 1,
        deg < 33,
        forall|j: int| deg < j < 33 ==> #[trigger] lambda[j] == 0,
    ensures
        named_positions(lambda).finite(),
        named_positions(lambda).len() <= deg,
{
    let all = named_positions(lambda);
    vstd::set_lib::lemma_int_range(0, 255);
    assert(all.subset_of(vstd::set_lib::set_int_range(0, 255)));
    vstd::set_lib::lemma_len_subset(all, vstd::set_lib::set_int_range(0, 255));
    if all.len() > deg {
        let ks = lemma_listing(all);
        let roots = ks.map_values(|k: int| position_root(k));
        assert forall|i: int| 0 <= i < ks.len() implies all.contains(#[trigger] ks[i]) by {
            assert(ks.contains(ks[i]));
        }
        assert forall|i: int, j: int|
            0 <= i < roots.len() && 0 <= j < roots.len() && i != j implies roots[i] != roots[j] by {
            assert(all.contains(ks[i]) && all.contains(ks[j]));
            assert(ks[i] != ks[j]);
            if roots[i] == roots[j] {
                lemma_position_root_injective(ks[i], ks[j]);
            }
        }
        assert forall|i: int| 0 <= i < roots.len() implies roots[i] != 0 && peval(
            co(lambda),
            (deg + 1) as nat,
            #[trigger] roots[i],
        ) == 0 by {
            assert(all.contains(ks[i]));
            lemma_apow_nonzero((11 * (ks[i] + 1)) as nat);
            lemma_peval_trim(co(lambda), (deg + 1) as nat, 33, roots[i]);
        }
        lemma_root_bound(co(lambda), (deg + 1) as nat, roots);
        assert(co(lambda)(0) == 0);
    }
}

proof fn lemma_zero_register(bb: Seq<u8>, n: nat, z: u8)
    requires
        n <= bb.len(),
        forall|k: int| 0 <= k < n ==> bb[k] == 0,
    ensures
        horner_value(bb, n, z) == 0,
    decreases n,
{
    if n > 0 {
        lemma_zero_register(bb, (n - 1) as nat, z);
        lemma_mul_zero(z);
        lemma_xor(0, 0, 0);
    }
}

} // verus!
