//! The sum-check protocol for a multilinear polynomial given by its table of
//! values on the boolean hypercube, first variable most significant.
use crate::field::{
    field_sub, fq_add, fq_eq, fq_mul, fq_rand, fq_sub, fq_zero, lemma_modulus_large,
    lemma_reduced, lemma_residues, modulus, values, FieldElement,
};
use crate::sums::{lemma_sum_congruent, lemma_sum_scaled, lemma_sum_split, sum_to};
use rand_core::OsRng;
use vstd::arithmetic::power2::{lemma_pow2_unfold, pow2};
use vstd::prelude::*;

verus! {

/// The value of the toy polynomial `g(X, Y, Z) = X^2 Y^2 Z` at a point.
pub open spec fn toy_value(x: int, y: int, z: int) -> int {
    x * x * y * y * z
}

/// The sum of the toy polynomial over the eight vertices of the cube.
pub open spec fn toy_cube_sum() -> int {
    toy_value(0, 0, 0) + toy_value(0, 0, 1) + toy_value(0, 1, 0) + toy_value(0, 1, 1) + toy_value(
        1,
        0,
        0,
    ) + toy_value(1, 0, 1) + toy_value(1, 1, 0) + toy_value(1, 1, 1)
}

/// The toy polynomial `g(X, Y, Z) = X^2 Y^2 Z`.
pub struct ToyPolynomial {
    pub X: u64,
    pub Y: u64,
    pub Z: u64,
}

impl ToyPolynomial {
    /// The sum of the polynomial over the boolean hypercube, which is 1.
    pub fn evaluate(&self) -> (tot: u64)
        ensures
            tot == toy_cube_sum(),
            tot == 1,
    {
        let mut tot: u64 = 0;
        let mut b_1: u64 = 0;
        while b_1 <= 1
            invariant
                b_1 <= 2,
                tot == if b_1 == 2 {
                    1int
                } else {
                    0int
                },
            decreases 2 - b_1,
        {
            let mut b_2: u64 = 0;
            while b_2 <= 1
                invariant
                    b_1 <= 1,
                    b_2 <= 2,
                    tot == if b_1 == 1 && b_2 == 2 {
                        1int
                    } else {
                        0int
                    },
                decreases 2 - b_2,
            {
                let mut b_3: u64 = 0;
                while b_3 <= 1
                    invariant
                        b_1 <= 1,
                        b_2 <= 1,
                        b_3 <= 2,
                        tot == if b_1 == 1 && b_2 == 1 && b_3 == 2 {
                            1int
                        } else {
                            0int
                        },
                    decreases 2 - b_3,
                {
                    tot += b_1 * b_1 * b_2 * b_2 * b_3;
                    b_3 += 1;
                }
                b_2 += 1;
            }
            b_1 += 1;
        }
        assert(toy_cube_sum() == 1) by (nonlinear_arith)
            requires
                toy_cube_sum() == toy_value(0, 0, 0) + toy_value(0, 0, 1) + toy_value(0, 1, 0)
                    + toy_value(0, 1, 1) + toy_value(1, 0, 0) + toy_value(1, 0, 1) + toy_value(
                    1,
                    1,
                    0,
                ) + toy_value(1, 1, 1),
                forall|x: int, y: int, z: int| #[trigger] toy_value(x, y, z) == x * x * y * y * z,
        ;
        tot
    }
}

/// The sum of `count` entries of `t`, starting at `from`.
pub open spec fn table_sum(t: Seq<nat>, from: int, count: nat) -> int {
    sum_to(|k: int| t[from + k] as int, count)
}

/// The claimed total: the sum of the whole table, in the field.
pub open spec fn total(t: Seq<nat>) -> nat {
    (table_sum(t, 0, t.len()) % (modulus() as int)) as nat
}

/// The sum of the half of the table in which the first variable is `bit`.
pub open spec fn half_sum(t: Seq<nat>, bit: bool) -> nat {
    let half = t.len() / 2;
    (table_sum(
        t,
        if bit {
            half as int
        } else {
            0
        },
        half,
    ) % (modulus() as int)) as nat
}

/// The value at `r` of the line through `lo` at 0 and `hi` at 1.
pub open spec fn line_value(lo: nat, hi: nat, r: nat) -> nat {
    (lo + (r * field_sub(hi as int, lo as int)) % modulus()) % modulus()
}

/// The table after its first variable is fixed to `r`.
pub open spec fn fold(t: Seq<nat>, r: nat) -> Seq<nat> {
    Seq::new(t.len() / 2, |k: int| line_value(t[k], t[t.len() / 2 + k], r))
}

/// The table after its leading variables are fixed to `point`, one by one.
pub open spec fn fold_all(t: Seq<nat>, point: Seq<nat>, upto: nat) -> Seq<nat>
    decreases upto,
{
    if upto == 0 {
        t
    } else {
        fold(fold_all(t, point, (upto - 1) as nat), point[upto - 1])
    }
}

/// A round's univariate polynomial, of degree at most one, by its values at 0 and 1.
#[derive(Clone, Copy, Debug, PartialEq, Eq)]
pub struct ProverPolynomial {
    pub at_zero: FieldElement,
    pub at_one: FieldElement,
}

impl ProverPolynomial {
    /// The polynomial's value at `r`.
    pub fn evaluate(&self, r: &FieldElement) -> (v: FieldElement)
        ensures
            v@ == line_value(self.at_zero@, self.at_one@, r@),
    {
        let slope = fq_sub(&self.at_one, &self.at_zero);
        fq_add(&self.at_zero, &fq_mul(r, &slope))
    }
}

/// A challenge that the verifier issues.
#[derive(Clone, Copy, Debug, PartialEq, Eq)]
pub struct ChallengeElement(pub FieldElement);

/// Why the verifier turned a round's message down.
#[derive(Clone, Copy, Debug, PartialEq, Eq)]
pub enum SumCheckError {
    /// The message does not belong to the round that the verifier is in.
    WrongRound,
    /// The message's values at 0 and 1 do not add up to the standing claim.
    Inconsistent,
}

/// The sum of `count` entries of `t`, starting at `from`, in the field.
pub fn sum_range(t: &Vec<FieldElement>, from: usize, count: usize) -> (s: FieldElement)
    requires
        from + count <= t@.len(),
    ensures
        s@ == table_sum(values(t@), from as int, count as nat) % (modulus() as int),
{
    let mut acc = fq_zero();
    let mut k: usize = 0;
    let n = t.len();
    proof {
        lemma_modulus_large();
        lemma_reduced(0);
    }
    while k < count
        invariant
            k <= count,
            n == t@.len(),
            from + count <= n,
            acc@ == table_sum(values(t@), from as int, k as nat) % (modulus() as int),
        decreases count - k,
    {
        let ghost before = table_sum(values(t@), from as int, k as nat);
        let entry = t[from + k];
        proof {
            use_type_invariant(&entry);
            lemma_reduced(entry@ as int);
            lemma_residues(before, entry@ as int);
        }
        acc = fq_add(&acc, &entry);
        k = k + 1;
    }
    acc
}

/// The round message of a table: the sums of its two halves.
pub open spec fn round_message(t: Seq<nat>, m: ProverPolynomial) -> bool {
    m.at_zero@ == half_sum(t, false) && m.at_one@ == half_sum(t, true)
}

/// Fixes the first variable of the table `t` to `r`.
pub fn fold_table(t: &Vec<FieldElement>, r: &FieldElement) -> (out: Vec<FieldElement>)
    ensures
        values(out@) == fold(values(t@), r@),
{
    let n = t.len();
    let half = n / 2;
    let mut out: Vec<FieldElement> = Vec::new();
    let mut k: usize = 0;
    while k < half
        invariant
            k <= half,
            n == t@.len(),
            half == n / 2,
            out@.len() == k,
            forall|m: int|
                0 <= m < k ==> out@[m]@ == line_value(t@[m]@, t@[half + m]@, r@),
        decreases half - k,
    {
        let slope = fq_sub(&t[half + k], &t[k]);
        out.push(fq_add(&t[k], &fq_mul(r, &slope)));
        k = k + 1;
    }
    assert(values(out@) =~= fold(values(t@), r@));
    out
}

/// The value at `point` of the multilinear extension of `table`: the single
/// entry left once every variable is fixed, or zero where none is left.
pub open spec fn oracle_value(table: Seq<nat>, point: Seq<nat>) -> nat {
    let last = fold_all(table, point, point.len());
    if last.len() > 0 {
        last[0]
    } else {
        0
    }
}

/// Evaluates the multilinear extension of `table` at `point`.
pub fn evaluate_extension(table: &Vec<FieldElement>, point: &Vec<FieldElement>) -> (v:
    FieldElement)
    ensures
        v@ == oracle_value(values(table@), values(point@)),
{
    let mut cur: Vec<FieldElement> = copy_table(table);
    let mut j: usize = 0;
    while j < point.len()
        invariant
            j <= point@.len(),
            values(cur@) == fold_all(values(table@), values(point@), j as nat),
        decreases point@.len() - j,
    {
        cur = fold_table(&cur, &point[j]);
        j = j + 1;
    }
    assert(cur@.len() == values(cur@).len());
    if cur.len() > 0 {
        cur[0]
    } else {
        fq_zero()
    }
}

/// A copy of the table.
fn copy_table(t: &Vec<FieldElement>) -> (out: Vec<FieldElement>)
    ensures
        values(out@) == values(t@),
{
    let mut out: Vec<FieldElement> = Vec::new();
    let mut k: usize = 0;
    while k < t.len()
        invariant
            k <= t@.len(),
            out@.len() == k,
            forall|m: int| 0 <= m < k ==> out@[m]@ == t@[m]@,
        decreases t@.len() - k,
    {
        out.push(t[k]);
        k = k + 1;
    }
    assert(values(out@) =~= values(t@));
    out
}

/// The party that holds the polynomial and claims its sum over the hypercube.
pub struct Prover {
    /// The values of the polynomial on the hypercube, with the variables
    /// fixed so far folded in.
    pub table: Vec<FieldElement>,
}

impl Prover {
    /// The claim that opens the protocol: the sum of the whole table.
    pub fn setup(&self) -> (c: FieldElement)
        ensures
            c@ == total(values(self.table@)),
    {
        sum_range(&self.table, 0, self.table.len())
    }

    /// The first round's message: the sums over the two halves of the table.
    pub fn first_round(&self) -> (m: ProverPolynomial)
        ensures
            round_message(values(self.table@), m),
    {
        let half = self.table.len() / 2;
        ProverPolynomial {
            at_zero: sum_range(&self.table, 0, half),
            at_one: sum_range(&self.table, half, half),
        }
    }

    /// A later round's message: fixes the previous variable to the challenge
    /// received, then sums over the two halves of the folded table.
    pub fn jth_round(&mut self, r_j_minus_1: ChallengeElement) -> (m: ProverPolynomial)
        ensures
            values(final(self).table@) == fold(values(old(self).table@), r_j_minus_1.0@),
            round_message(values(final(self).table@), m),
    {
        self.table = fold_table(&self.table, &r_j_minus_1.0);
        self.first_round()
    }
}

/// Where the verifier stands in the protocol.
#[derive(Clone, Copy, Debug, PartialEq, Eq, Structural)]
pub enum Phase {
    /// No claimed sum is recorded yet.
    Setup,
    /// The prover's next message is due: the first round's, or the one that
    /// answers the challenge issued last.
    MessageDue,
    /// A message was accepted, and the challenge that answers it is due.
    ChallengeDue,
    /// A message failed its check: the run is over, and the claim is rejected.
    Rejected,
}

/// The party that checks the claim round by round.
pub struct Verifier {
    /// The claimed sum, as the prover sent it at the start.
    pub claim: FieldElement,
    /// The challenges issued so far.
    pub challenges: Vec<FieldElement>,
    /// The message accepted last.
    pub last: ProverPolynomial,
    /// Where the verifier stands in the protocol.
    pub phase: Phase,
}

/// A message's values at 0 and 1 add up to the claim.
pub open spec fn consistent(claim: nat, m: ProverPolynomial) -> bool {
    claim == (m.at_zero@ + m.at_one@) % modulus()
}

/// What a round answers to a message. Out of turn the message is refused as
/// such: when no message is due, or when it is offered as the first round's
/// after a challenge was issued, or as a later round's before any. In turn it
/// is accepted exactly when it is consistent with the standing claim.
pub open spec fn round_outcome(v: Verifier, m: ProverPolynomial, first: bool) -> Result<
    (),
    SumCheckError,
> {
    if v.phase != Phase::MessageDue || (v.challenges@.len() == 0) != first {
        Err(SumCheckError::WrongRound)
    } else if consistent(v.standing(), m) {
        Ok(())
    } else {
        Err(SumCheckError::Inconsistent)
    }
}

/// The phase that follows a round's answer: an accepted message calls for a
/// challenge, an inconsistent one ends the run, and a message refused as out
/// of turn changes nothing.
pub open spec fn phase_after_round(before: Phase, outcome: Result<(), SumCheckError>) -> Phase {
    match outcome {
        Ok(_) => Phase::ChallengeDue,
        Err(SumCheckError::Inconsistent) => Phase::Rejected,
        Err(SumCheckError::WrongRound) => before,
    }
}

impl Verifier {
    /// The value that the next message's values at 0 and 1 must add up to:
    /// the claimed sum before any challenge, and from then on the last
    /// accepted message's value at the last challenge.
    pub open spec fn standing(&self) -> nat {
        if self.challenges@.len() == 0 {
            self.claim@
        } else {
            line_value(
                self.last.at_zero@,
                self.last.at_one@,
                self.challenges@[self.challenges@.len() - 1]@,
            )
        }
    }

    /// A verifier that has heard nothing yet.
    pub fn new() -> (v: Verifier)
        ensures
            v.claim@ == 0,
            v.challenges@.len() == 0,
            v.last.at_zero@ == 0,
            v.last.at_one@ == 0,
            v.phase == Phase::Setup,
    {
        Verifier {
            claim: fq_zero(),
            challenges: Vec::new(),
            last: ProverPolynomial { at_zero: fq_zero(), at_one: fq_zero() },
            phase: Phase::Setup,
        }
    }

    /// Records the claimed sum and opens a run: no challenge is issued, and
    /// the first round's message is due.
    pub fn set_C1(&mut self, C_1: FieldElement)
        ensures
            final(self).claim == C_1,
            final(self).challenges@.len() == 0,
            final(self).last == old(self).last,
            final(self).phase == Phase::MessageDue,
    {
        self.claim = C_1;
        self.challenges = Vec::new();
        self.phase = Phase::MessageDue;
    }

    /// The value that the next message's values at 0 and 1 must add up to.
    pub fn standing_claim(&self) -> (c: FieldElement)
        ensures
            c@ == self.standing(),
    {
        let issued = self.challenges.len();
        if issued == 0 {
            self.claim
        } else {
            self.last.evaluate(&self.challenges[issued - 1])
        }
    }

    /// Answers a message offered as the first round's or as a later one's.
    fn process_round(&mut self, message: &ProverPolynomial, first: bool) -> (res: Result<
        (),
        SumCheckError,
    >)
        ensures
            res == round_outcome(*old(self), *message, first),
            final(self).claim == old(self).claim,
            final(self).challenges == old(self).challenges,
            final(self).last == if res.is_ok() {
                *message
            } else {
                old(self).last
            },
            final(self).phase == phase_after_round(old(self).phase, res),
    {
        if self.phase != Phase::MessageDue || (self.challenges.len() == 0) != first {
            return Err(SumCheckError::WrongRound);
        }
        let standing = self.standing_claim();
        let sum = fq_add(&message.at_zero, &message.at_one);
        if fq_eq(&standing, &sum) {
            self.last = *message;
            self.phase = Phase::ChallengeDue;
            Ok(())
        } else {
            self.phase = Phase::Rejected;
            Err(SumCheckError::Inconsistent)
        }
    }

    /// The first round: when the first message is due, accepts one whose
    /// values at 0 and 1 add up to the claimed sum, and then awaits the
    /// challenge; one that does not add up ends the run.
    pub fn process_first_round(&mut self, message: &ProverPolynomial) -> (res: Result<
        (),
        SumCheckError,
    >)
        ensures
            res == round_outcome(*old(self), *message, true),
            final(self).claim == old(self).claim,
            final(self).challenges == old(self).challenges,
            final(self).last == if res.is_ok() {
                *message
            } else {
                old(self).last
            },
            final(self).phase == phase_after_round(old(self).phase, res),
    {
        self.process_round(message, true)
    }

    /// Draws a fresh challenge and issues it, when one is due. Out of turn
    /// nothing is drawn and nothing changes. The claimed sum and the last
    /// message stay as they are either way.
    pub fn generate_challenge(&mut self, rng: &mut OsRng) -> (res: Result<
        ChallengeElement,
        SumCheckError,
    >)
        ensures
            res.is_ok() <==> old(self).phase == Phase::ChallengeDue,
            res matches Ok(c) ==> final(self).challenges@ == old(self).challenges@.push(c.0)
                && final(self).phase == Phase::MessageDue,
            res matches Err(e) ==> e == SumCheckError::WrongRound
                && final(self).challenges == old(self).challenges
                && final(self).phase == old(self).phase,
            final(self).claim == old(self).claim,
            final(self).last == old(self).last,
    {
        if self.phase != Phase::ChallengeDue {
            return Err(SumCheckError::WrongRound);
        }
        let r = fq_rand(rng);
        self.challenges.push(r);
        self.phase = Phase::MessageDue;
        Ok(ChallengeElement(r))
    }

    /// Issues the challenge `r`, when one is due: it joins the challenges,
    /// and the message that answers it is due. Out of turn nothing changes.
    /// The claimed sum and the last message stay as they are either way.
    pub fn issue_challenge(&mut self, r: FieldElement) -> (res: Result<(), SumCheckError>)
        ensures
            res.is_ok() <==> old(self).phase == Phase::ChallengeDue,
            res.is_ok() ==> final(self).challenges@ == old(self).challenges@.push(r)
                && final(self).phase == Phase::MessageDue,
            res matches Err(e) ==> e == SumCheckError::WrongRound
                && final(self).challenges == old(self).challenges
                && final(self).phase == old(self).phase,
            final(self).claim == old(self).claim,
            final(self).last == old(self).last,
    {
        if self.phase != Phase::ChallengeDue {
            return Err(SumCheckError::WrongRound);
        }
        self.challenges.push(r);
        self.phase = Phase::MessageDue;
        Ok(())
    }

    /// A later round: when the message that answers a challenge is due,
    /// accepts one whose values at 0 and 1 add up to the previous message's
    /// value at that challenge, and then awaits the next challenge; one that
    /// does not add up ends the run.
    pub fn process_jth_round(&mut self, message: &ProverPolynomial) -> (res: Result<
        (),
        SumCheckError,
    >)
        ensures
            res == round_outcome(*old(self), *message, false),
            final(self).claim == old(self).claim,
            final(self).challenges == old(self).challenges,
            final(self).last == if res.is_ok() {
                *message
            } else {
                old(self).last
            },
            final(self).phase == phase_after_round(old(self).phase, res),
    {
        self.process_round(message, false)
    }

    /// The final check, made once the last challenge is issued: accepts
    /// exactly when no check has failed, no challenge is outstanding, and the
    /// standing claim is `oracle`, the polynomial's own value at all the
    /// challenges.
    pub fn finish(&self, oracle: &FieldElement) -> (accept: bool)
        ensures
            accept <==> self.phase == Phase::MessageDue && self.standing() == oracle@,
    {
        if self.phase != Phase::MessageDue {
            return false;
        }
        let standing = self.standing_claim();
        fq_eq(&standing, oracle)
    }
}

/// The sum over a range is the sum over its first part plus the sum over the rest.
pub proof fn lemma_table_sum_split(t: Seq<nat>, from: int, first: nat, rest: nat)
    ensures
        table_sum(t, from, first + rest) == table_sum(t, from, first) + table_sum(
            t,
            from + first,
            rest,
        ),
    decreases rest,
{
    if rest > 0 {
        lemma_table_sum_split(t, from, first, (rest - 1) as nat);
        assert(first + rest - 1 == first + (rest - 1) as nat);
        assert(sum_to(|k: int| t[from + k] as int, first + rest) == sum_to(
            |k: int| t[from + k] as int,
            (first + rest - 1) as nat,
        ) + t[from + first + rest - 1]);
    }
}

/// The two values of an honest round message add up to the table's total:
/// the verifier's check passes on a true claim, and fails on every other.
pub proof fn lemma_honest_message_checked(t: Seq<nat>, m: ProverPolynomial, claim: nat)
    requires
        t.len() % 2 == 0,
        round_message(t, m),
    ensures
        consistent(claim, m) <==> claim == total(t),
{
    let half = t.len() / 2;
    lemma_table_sum_split(t, 0, half, half);
    lemma_residues(table_sum(t, 0, half), table_sum(t, half as int, half));
}

/// The value of an honest round message at the challenge `r` is the total of
/// the table with its first variable fixed to `r`: the claim that the next
/// round's honest message is held against.
pub proof fn lemma_claim_follows_fold(t: Seq<nat>, m: ProverPolynomial, r: nat)
    requires
        round_message(t, m),
    ensures
        line_value(m.at_zero@, m.at_one@, r) == total(fold(t, r)),
{
    let p = modulus() as int;
    let h = t.len() / 2;
    let f = fold(t, r);
    lemma_modulus_large();
    let lo = |k: int| t[0 + k] as int;
    let hi = |k: int| t[h as int + k] as int;
    let diff = |k: int| t[h as int + k] as int - t[0 + k] as int;
    let scaled = |k: int| (t[h as int + k] as int - t[0 + k] as int) * (r as int);
    let exact = |k: int| t[0 + k] as int + (t[h as int + k] as int - t[0 + k] as int) * (r as int);
    let folded = |k: int| f[0 + k] as int;
    let low = sum_to(lo, h);
    let high = sum_to(hi, h);
    assert forall|k: int| 0 <= k < h implies #[trigger] folded(k) % p == exact(k) % p by {
        let a = t[k] as int;
        let d = t[h + k] as int - t[k] as int;
        let rr = r as int;
        let fs = field_sub(t[h + k] as int, t[k] as int) as int;
        let u = rr * fs;
        assert(fs == d % p);
        assert(f[k] == line_value(t[k], t[h + k], r));
        assert(f[k] as int == (a + u % p) % p);
        vstd::arithmetic::div_mod::lemma_mul_mod_noop_general(rr, d, p);
        assert(u % p == (rr * d) % p);
        vstd::arithmetic::div_mod::lemma_add_mod_noop_right(a, rr * d, p);
        vstd::arithmetic::div_mod::lemma_mod_twice(a + u % p, p);
        assert(rr * d == d * rr) by (nonlinear_arith);
    }
    lemma_sum_congruent(folded, exact, h);
    lemma_sum_split(lo, diff, hi, h);
    lemma_sum_scaled(diff, r as int, scaled, h);
    lemma_sum_split(lo, scaled, exact, h);
    assert(sum_to(exact, h) == low + (high - low) * (r as int));
    assert(total(f) == (low + (high - low) * (r as int)) % p);
    let d = high - low;
    lemma_residues(high, low);
    vstd::arithmetic::div_mod::lemma_mul_mod_noop_general(r as int, d, p);
    vstd::arithmetic::div_mod::lemma_mul_mod_noop_general(r as int, (high % p) - (low % p), p);
    lemma_residues(low, (r as int) * d);
    lemma_residues(low % p, (r as int) * d);
    vstd::arithmetic::div_mod::lemma_mod_twice(low, p);
    assert((r as int) * d == d * (r as int)) by (nonlinear_arith);
}

/// Once every variable is fixed the table's total is its one entry, the
/// polynomial's value at the challenges.
pub proof fn lemma_last_claim_is_value(t: Seq<nat>)
    requires
        t.len() == 1,
        t[0] < modulus(),
    ensures
        total(t) == t[0],
{
    lemma_reduced(t[0] as int);
    assert(sum_to(|k: int| t[0 + k] as int, 1) == sum_to(|k: int| t[0 + k] as int, 0) + t[0]);
}

/// Fixing variables reads only as many challenges as variables are fixed.
pub proof fn lemma_fold_all_prefix(t: Seq<nat>, p: Seq<nat>, q: Seq<nat>, upto: nat)
    requires
        upto <= p.len(),
        upto <= q.len(),
        forall|k: int| 0 <= k < upto ==> p[k] == q[k],
    ensures
        fold_all(t, p, upto) == fold_all(t, q, upto),
    decreases upto,
{
    if upto > 0 {
        lemma_fold_all_prefix(t, p, q, (upto - 1) as nat);
    }
}

/// Each variable fixed halves a table of `2^v` entries.
pub proof fn lemma_fold_all_len(t: Seq<nat>, p: Seq<nat>, v: nat, upto: nat)
    requires
        t.len() == pow2(v),
        upto <= v,
    ensures
        fold_all(t, p, upto).len() == pow2((v - upto) as nat),
    decreases upto,
{
    if upto > 0 {
        lemma_fold_all_len(t, p, v, (upto - 1) as nat);
        lemma_pow2_unfold((v - upto + 1) as nat);
    }
}

/// Runs the protocol to its end between a prover that holds `table`, the
/// `2^rounds` values of a polynomial on the hypercube, and follows the
/// protocol, and a verifier that was told the sum `claimed`. The verifier
/// accepts exactly when the claimed sum is the true one, whatever challenges
/// are drawn; a false claim is turned down by the first round's check.
pub fn run_protocol(
    table: &Vec<FieldElement>,
    claimed: FieldElement,
    rounds: usize,
    rng: &mut OsRng,
) -> (accept: bool)
    requires
        table@.len() == pow2(rounds as nat),
    ensures
        accept <==> claimed@ == total(values(table@)),
{
    let ghost orig = values(table@);
    let ghost truthful = claimed@ == total(orig);
    let mut prover = Prover { table: copy_table(table) };
    let mut verifier = Verifier::new();
    verifier.set_C1(claimed);
    let mut last = claimed;
    let mut j: usize = 0;
    proof {
        lemma_modulus_large();
    }
    while j < rounds
        invariant
            j <= rounds,
            orig == values(table@),
            orig.len() == pow2(rounds as nat),
            truthful == (claimed@ == total(orig)),
            verifier.challenges@.len() == j,
            verifier.claim == claimed,
            verifier.phase == Phase::MessageDue,
            j == 0 ==> values(prover.table@) == orig,
            j > 0 ==> truthful && last == verifier.challenges@[j - 1] && values(prover.table@)
                == fold_all(orig, values(verifier.challenges@), (j - 1) as nat),
            truthful ==> verifier.standing() == total(
                fold_all(orig, values(verifier.challenges@), j as nat),
            ),
        decreases rounds - j,
    {
        let ghost before = values(verifier.challenges@);
        let ghost current = fold_all(orig, before, j as nat);
        let ghost standing = verifier.standing();
        let m = if j == 0 {
            prover.first_round()
        } else {
            prover.jth_round(ChallengeElement(last))
        };
        let res = if j == 0 {
            verifier.process_first_round(&m)
        } else {
            verifier.process_jth_round(&m)
        };
        proof {
            assert(values(prover.table@) == current);
            lemma_fold_all_len(orig, before, rounds as nat, j as nat);
            lemma_pow2_unfold((rounds - j) as nat);
            lemma_honest_message_checked(current, m, standing);
        }
        if res.is_err() {
            return false;
        }
        match verifier.generate_challenge(rng) {
            Ok(c) => {
                last = c.0;
                proof {
                    let after = values(verifier.challenges@);
                    assert(after =~= before.push(c.0@));
                    lemma_fold_all_prefix(orig, before, after, j as nat);
                    lemma_claim_follows_fold(current, m, c.0@);
                }
            },
            Err(_) => {
                return false;
            },
        }
        j = j + 1;
    }
    let oracle = evaluate_extension(table, &verifier.challenges);
    proof {
        let point = values(verifier.challenges@);
        let left = fold_all(orig, point, rounds as nat);
        lemma_fold_all_len(orig, point, rounds as nat, rounds as nat);
        vstd::arithmetic::power2::lemma2_to64();
        assert(left.len() == 1);
        use_type_invariant(&oracle);
        assert(oracle@ == left[0]);
        lemma_last_claim_is_value(left);
    }
    verifier.finish(&oracle)
}

} // verus!
