//! The generator: a random prefix, a counter and a random step.
use vstd::arithmetic::div_mod::lemma_div_denominator;
use vstd::prelude::*;

use crate::alphabet::{
    all_symbols, base62_digits, digit, digit_spec, is_symbol, lemma_base62_digits_injective,
    lemma_digit_is_symbol, lemma_pow62_step, lemma_pow62_ten, pow62, symbol_for_byte,
};

verus! {

/// Number of prefix symbols.
pub const PRE_LEN: usize = 12;

/// Number of counter symbols.
pub const SEQ_LEN: usize = 10;

/// Length of every identifier.
pub const TOTAL_LEN: usize = PRE_LEN + SEQ_LEN;

/// The counter's bound, `62^10`: reaching it retires the prefix.
pub const MAX_SEQ: i64 = 839299365868340224;

/// Lower bound of the step.
pub const MIN_INC: i64 = 33;

/// Upper bound (exclusive) of the step.
pub const MAX_INC: i64 = 333;

/// The abstract state of a generator.
pub struct NuidState {
    pub pre: Seq<u8>,
    pub seq: int,
    pub inc: int,
}

/// The prefix that a run of random bytes selects, one symbol per byte.
pub open spec fn prefix_from_bytes(raw: Seq<u8>) -> Seq<u8> {
    raw.map_values(|b: u8| digit_spec((b % 62) as int))
}

/// The bytes of the identifier for prefix `pre` and counter `seq`: the prefix,
/// then the ten lowest base-62 digits of the counter.
pub open spec fn id_bytes(pre: Seq<u8>, seq: int) -> Seq<u8> {
    pre + base62_digits(seq as nat, SEQ_LEN as nat)
}

/// The identifier for prefix `pre` and counter `seq`, as text.
pub open spec fn id_text(pre: Seq<u8>, seq: int) -> Seq<char> {
    id_bytes(pre, seq).map_values(|b: u8| b as char)
}

/// `c` is one of the 62 symbols, as a character.
pub open spec fn is_symbol_char(c: char) -> bool {
    ('0' <= c && c <= '9') || ('A' <= c && c <= 'Z') || ('a' <= c && c <= 'z')
}

/// A counter and a step as construction and rollover draw them.
pub open spec fn fresh_counter(seq: int, inc: int) -> bool {
    1 <= seq < MAX_SEQ && MIN_INC + 1 <= inc < MAX_INC
}

/// Within one prefix, distinct counters below `MAX_SEQ` render distinct
/// identifiers; together with a counter that strictly grows between
/// rollovers, no identifier repeats while a prefix lasts.
pub proof fn lemma_distinct_counters_distinct_ids(pre: Seq<u8>, s1: int, s2: int)
    requires
        0 <= s1 < MAX_SEQ,
        0 <= s2 < MAX_SEQ,
        s1 != s2,
    ensures
        id_text(pre, s1) != id_text(pre, s2),
{
    lemma_pow62_ten();
    let b1 = id_bytes(pre, s1);
    let b2 = id_bytes(pre, s2);
    if id_text(pre, s1) == id_text(pre, s2) {
        let k = pre.len();
        assert forall|j: int| 0 <= j < SEQ_LEN implies #[trigger] base62_digits(
            s1 as nat,
            SEQ_LEN as nat,
        )[j] == base62_digits(s2 as nat, SEQ_LEN as nat)[j] by {
            assert(id_text(pre, s1)[k + j] == id_text(pre, s2)[k + j]);
            assert(b1[k + j] == b2[k + j]);
        }
        assert(base62_digits(s1 as nat, SEQ_LEN as nat) =~= base62_digits(s2 as nat, SEQ_LEN as nat));
        lemma_base62_digits_injective(s1 as nat, s2 as nat, SEQ_LEN as nat);
    }
}

/// In a run of counters where each one exceeds the one before, every earlier
/// counter is below every later one.
proof fn lemma_run_increasing(seqs: Seq<int>, i: int, j: int)
    requires
        forall|k: int| 0 <= k < seqs.len() - 1 ==> #[trigger] seqs[k] < seqs[k + 1],
        0 <= i < j < seqs.len(),
    ensures
        seqs[i] < seqs[j],
    decreases j - i,
{
    if j > i + 1 {
        lemma_run_increasing(seqs, i, j - 1);
        assert(seqs[j - 1] < seqs[j]);
    }
}

/// The counters of successive identifiers under one prefix, each above the
/// one before and all below `MAX_SEQ`, render pairwise distinct identifiers:
/// however many times `next` is called between rollovers, no identifier
/// repeats.
pub proof fn lemma_run_distinct_ids(pre: Seq<u8>, seqs: Seq<int>)
    requires
        forall|k: int| 0 <= k < seqs.len() ==> 0 <= #[trigger] seqs[k] < MAX_SEQ,
        forall|k: int| 0 <= k < seqs.len() - 1 ==> #[trigger] seqs[k] < seqs[k + 1],
    ensures
        forall|i: int, j: int|
            0 <= i < j < seqs.len() ==> id_text(pre, #[trigger] seqs[i]) != id_text(
                pre,
                #[trigger] seqs[j],
            ),
{
    assert forall|i: int, j: int| 0 <= i < j < seqs.len() implies id_text(
        pre,
        #[trigger] seqs[i],
    ) != id_text(pre, #[trigger] seqs[j]) by {
        lemma_run_increasing(seqs, i, j);
        lemma_distinct_counters_distinct_ids(pre, seqs[i], seqs[j]);
    }
}

/// Relies on fastrand::i64: a value drawn from `lo..hi`, which panics when the
/// range is empty.
#[verifier::external_body]
fn random_i64(lo: i64, hi: i64) -> (r: i64)
    requires
        lo < hi,
    ensures
        lo <= r < hi,
{
    fastrand::i64(lo..hi)
}

/// Relies on fastrand::u8: a byte drawn from the whole range.
#[verifier::external_body]
fn random_byte() -> u8 {
    fastrand::u8(..)
}

/// Relies on String::from_utf8_lossy: ASCII bytes are valid UTF-8 and come out
/// as the same characters, one per byte.
#[verifier::external_body]
fn ascii_to_string(b: &[u8; TOTAL_LEN]) -> (r: String)
    requires
        forall|i: int| 0 <= i < b@.len() ==> #[trigger] b@[i] < 128,
    ensures
        r@ == b@.map_values(|x: u8| x as char),
{
    String::from_utf8_lossy(b).into_owned()
}

/// The character for decimal digit `d` (`0 <= d < 10`).
pub open spec fn decimal_digit(d: nat) -> char {
    ((48 + d) as u8) as char
}

/// The decimal digits of `n`, most significant first, with no leading zeros.
pub open spec fn decimal_nat(n: nat) -> Seq<char>
    decreases n,
{
    if n < 10 {
        seq![decimal_digit(n)]
    } else {
        decimal_nat(n / 10) + seq![decimal_digit(n % 10)]
    }
}

/// An integer in decimal, with a leading `-` when it is negative.
pub open spec fn decimal(i: int) -> Seq<char> {
    if i < 0 {
        seq!['-'] + decimal_nat((-i) as nat)
    } else {
        decimal_nat(i as nat)
    }
}

/// The `Debug` text of an array of bytes; it depends on the bytes alone.
pub uninterp spec fn bytes_debug_of(pre: Seq<u8>) -> Seq<char>;

/// The diagnostic text of a state: the prefix bytes in `Debug` form, then
/// the counter and the step in decimal, separated by single spaces.
pub open spec fn description(pre: Seq<u8>, seq: int, inc: int) -> Seq<char> {
    bytes_debug_of(pre) + seq![' '] + decimal(seq) + seq![' '] + decimal(inc)
}

/// Relies on std's `format!` with `"{:?} {} {}"`: `Debug` of the byte array,
/// then `Display` of each `i64`, which is its decimal form.
#[verifier::external_body]
fn describe_parts(pre: &[u8; PRE_LEN], seq: i64, inc: i64) -> (r: String)
    ensures
        r@ == bytes_debug_of(pre@) + seq![' '] + decimal(seq as int) + seq![' '] + decimal(
            inc as int,
        ),
{
    format!("{:?} {} {}", pre, seq, inc)
}

/// Draws one random byte for each prefix position.
fn random_bytes() -> [u8; PRE_LEN] {
    let mut raw: [u8; PRE_LEN] = [0u8; PRE_LEN];
    let mut i: usize = 0;
    while i < PRE_LEN
        invariant
            i <= PRE_LEN,
        decreases PRE_LEN - i,
    {
        raw[i] = random_byte();
        i += 1;
    }
    raw
}

/// A generator of identifiers.
pub struct NUID {
    pre: [u8; PRE_LEN],
    seq: i64,
    inc: i64,
}

impl View for NUID {
    type V = NuidState;

    closed spec fn view(&self) -> NuidState {
        NuidState { pre: self.pre@, seq: self.seq as int, inc: self.inc as int }
    }
}

impl NUID {
    /// The invariant that construction and every identifier production keep:
    /// a prefix of alphabet symbols, `0 <= seq < MAX_SEQ`, and
    /// `MIN_INC <= inc < MAX_INC`.
    pub open spec fn inv(&self) -> bool {
        &&& self@.pre.len() == PRE_LEN
        &&& all_symbols(self@.pre)
        &&& 0 <= self@.seq < MAX_SEQ
        &&& MIN_INC <= self@.inc < MAX_INC
    }

    /// A state from which an identifier can be produced: the prefix is made of
    /// symbols, and the counter and step are small enough not to overflow.
    pub open spec fn wf(&self) -> bool {
        &&& self@.pre.len() == PRE_LEN
        &&& all_symbols(self@.pre)
        &&& 0 <= self@.seq <= i64::MAX - MAX_INC
        &&& 0 <= self@.inc <= MAX_INC
    }

    /// The identifier that the current state renders.
    pub open spec fn identifier(&self) -> Seq<char> {
        id_text(self@.pre, self@.seq)
    }

    proof fn lemma_view(&self)
        ensures
            self@.pre == self.pre@,
            self@.pre.len() == PRE_LEN,
            self@.seq == self.seq,
            self@.inc == self.inc,
    {
    }

    /// A generator whose prefix, counter and step come from the given random
    /// draws: `raw` holds one byte per prefix position, `seq_draw` lies in
    /// `1..MAX_SEQ` and `inc_draw` in `1..MAX_INC - MIN_INC`.
    pub fn with_draws(raw: [u8; PRE_LEN], seq_draw: i64, inc_draw: i64) -> (r: NUID)
        requires
            1 <= seq_draw < MAX_SEQ,
            1 <= inc_draw < MAX_INC - MIN_INC,
        ensures
            r@.pre == prefix_from_bytes(raw@),
            r@.seq == seq_draw,
            r@.inc == MIN_INC + inc_draw,
            r.inv(),
            r.wf(),
            fresh_counter(r@.seq, r@.inc),
    {
        let mut pre: [u8; PRE_LEN] = [0u8; PRE_LEN];
        let mut i: usize = 0;
        while i < PRE_LEN
            invariant
                i <= PRE_LEN,
                forall|j: int| 0 <= j < i ==> pre@[j] == digit_spec((raw@[j] % 62) as int),
            decreases PRE_LEN - i,
        {
            pre[i] = symbol_for_byte(raw[i]);
            i += 1;
        }
        let r = NUID { pre, seq: seq_draw, inc: MIN_INC + inc_draw };
        proof {
            r.lemma_view();
            assert(r@.pre =~= prefix_from_bytes(raw@));
            assert forall|j: int| 0 <= j < r@.pre.len() implies is_symbol(#[trigger] r@.pre[j]) by {
                lemma_digit_is_symbol((raw@[j] % 62) as int);
            }
        }
        r
    }

    /// A newly seeded generator: a random counter in `1..MAX_SEQ`, a random
    /// step in `MIN_INC + 1..MAX_INC`, and a random prefix.
    pub fn new() -> (r: NUID)
        ensures
            r.inv(),
            r.wf(),
            fresh_counter(r@.seq, r@.inc),
            exists|raw: Seq<u8>| raw.len() == PRE_LEN && r@.pre == prefix_from_bytes(raw),
    {
        let seq_draw = random_i64(1, MAX_SEQ);
        let inc_draw = random_i64(1, MAX_INC - MIN_INC);
        let raw = random_bytes();
        let r = NUID::with_draws(raw, seq_draw, inc_draw);
        assert(raw@.len() == PRE_LEN);
        r
    }
    /// Renders the current state: the prefix, then the counter's ten lowest
    /// base-62 digits, written right to left into a fixed buffer.
    fn render(&self) -> (r: String)
        requires
            self.wf(),
        ensures
            r@ == self.identifier(),
    {
        proof {
            self.lemma_view();
        }
        let mut b: [u8; TOTAL_LEN] = [0u8; TOTAL_LEN];
        let mut i: usize = 0;
        while i < PRE_LEN
            invariant
                i <= PRE_LEN,
                self.pre@.len() == PRE_LEN,
                b@.len() == TOTAL_LEN,
                forall|j: int| 0 <= j < i ==> b@[j] == self.pre@[j],
            decreases PRE_LEN - i,
        {
            b[i] = self.pre[i];
            i += 1;
        }
        let ghost v: nat = self.seq as nat;
        let mut l: u64 = self.seq as u64;
        let mut k: usize = TOTAL_LEN;
        proof {
            assert(pow62(0) == 1);
            assert(v / 1 == v);
            assert(l as nat == v);
        }
        while k > PRE_LEN
            invariant
                PRE_LEN <= k <= TOTAL_LEN,
                b@.len() == TOTAL_LEN,
                self.pre@.len() == PRE_LEN,
                forall|j: int| 0 <= j < PRE_LEN ==> b@[j] == self.pre@[j],
                l as nat == v / pow62((TOTAL_LEN - k) as nat),
                forall|j: int|
                    k <= j < TOTAL_LEN ==> b@[j] == digit_spec(
                        ((v / pow62((TOTAL_LEN - 1 - j) as nat)) % 62) as int,
                    ),
            decreases k,
        {
            k -= 1;
            b[k] = digit((l % 62) as usize);
            proof {
                let e = (TOTAL_LEN - 1 - k) as nat;
                lemma_pow62_step(e);
                lemma_div_denominator(v as int, pow62(e) as int, 62);
                assert(pow62(e) * 62 == pow62(e + 1));
            }
            l = l / 62;
        }
        proof {
            let ib = id_bytes(self@.pre, self@.seq);
            assert(b@ =~= ib);
            assert forall|j: int| 0 <= j < b@.len() implies #[trigger] b@[j] < 128 by {
                if j >= PRE_LEN {
                    lemma_digit_is_symbol(((v / pow62((TOTAL_LEN - 1 - j) as nat)) % 62) as int);
                }
            }
        }
        ascii_to_string(&b)
    }

    /// Produces the next identifier. The counter advances by the step; when
    /// it reaches `MAX_SEQ`, the prefix, counter and step are drawn afresh.
    /// The identifier then renders the new state: 22 symbols of the alphabet,
    /// the prefix followed by the counter in base 62.
    pub fn next(&mut self) -> (r: String)
        requires
            old(self).wf(),
        ensures
            old(self).inv() ==> final(self).inv(),
            final(self).wf(),
            0 <= final(self)@.seq < MAX_SEQ,
            r@ == final(self).identifier(),
            r@.len() == TOTAL_LEN,
            forall|j: int| 0 <= j < r@.len() ==> is_symbol_char(#[trigger] r@[j]),
            old(self)@.seq + old(self)@.inc < MAX_SEQ ==> {
                &&& final(self)@.pre == old(self)@.pre
                &&& final(self)@.seq == old(self)@.seq + old(self)@.inc
                &&& final(self)@.inc == old(self)@.inc
            },
            old(self)@.seq + old(self)@.inc >= MAX_SEQ ==> {
                &&& fresh_counter(final(self)@.seq, final(self)@.inc)
                &&& exists|raw: Seq<u8>|
                    raw.len() == PRE_LEN && final(self)@.pre == prefix_from_bytes(raw)
            },
    {
        proof {
            self.lemma_view();
        }
        self.seq = self.seq + self.inc;
        if self.seq >= MAX_SEQ {
            let raw = random_bytes();
            let seq_draw = random_i64(1, MAX_SEQ);
            let inc_draw = random_i64(1, MAX_INC - MIN_INC);
            *self = NUID::with_draws(raw, seq_draw, inc_draw);
            assert(raw@.len() == PRE_LEN);
        }
        proof {
            self.lemma_view();
        }
        let r = self.render();
        proof {
            let ib = id_bytes(self@.pre, self@.seq);
            assert forall|j: int| 0 <= j < r@.len() implies is_symbol_char(#[trigger] r@[j]) by {
                if j >= PRE_LEN {
                    let v = self@.seq as nat;
                    lemma_digit_is_symbol(((v / pow62((TOTAL_LEN - 1 - j) as nat)) % 62) as int);
                }
                assert(is_symbol(ib[j]));
            }
        }
        r
    }
    /// The current prefix bytes.
    pub fn prefix(&self) -> (r: [u8; PRE_LEN])
        ensures
            r@ == self@.pre,
    {
        self.pre
    }

    /// The current counter.
    pub fn sequence(&self) -> (r: i64)
        ensures
            r == self@.seq,
    {
        self.seq
    }

    /// The current step.
    pub fn increment(&self) -> (r: i64)
        ensures
            r == self@.inc,
    {
        self.inc
    }

    /// Forces the counter, for instance to bring on a rollover. Any value that
    /// cannot overflow when the step is added is accepted.
    pub fn set_sequence(&mut self, seq: i64)
        requires
            old(self).wf(),
            0 <= seq <= i64::MAX - MAX_INC,
        ensures
            final(self).wf(),
            final(self)@.pre == old(self)@.pre,
            final(self)@.seq == seq,
            final(self)@.inc == old(self)@.inc,
    {
        self.seq = seq;
    }

    /// Forces the step, to any value up to `MAX_INC`.
    pub fn set_increment(&mut self, inc: i64)
        requires
            old(self).wf(),
            0 <= inc <= MAX_INC,
        ensures
            final(self).wf(),
            final(self)@.pre == old(self)@.pre,
            final(self)@.seq == old(self)@.seq,
            final(self)@.inc == inc,
    {
        self.inc = inc;
    }

    /// Diagnostic text: the raw prefix bytes, the counter and the step.
    pub fn describe(&self) -> (r: String)
        ensures
            r@ == description(self@.pre, self@.seq, self@.inc),
    {
        proof {
            self.lemma_view();
        }
        describe_parts(&self.pre, self.seq, self.inc)
    }
}

} // verus!
