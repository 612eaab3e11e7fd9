use vstd::prelude::*;
use vstd::arithmetic::div_mod::{
    lemma_add_mod_noop, lemma_fundamental_div_mod, lemma_mod_multiples_vanish,
    lemma_mul_mod_noop_left, lemma_small_mod,
};
use vstd::arithmetic::power2::{lemma_pow2_pos, lemma_pow2_unfold, pow2};
use vstd::std_specs::convert::FromSpecImpl;
use vstd::string::StringExecFns;
pub use crate::bit::Bit;
use crate::error::Error;

verus! {

/// The number that a row of bits spells, first bit most significant.
pub open spec fn bits_value(bits: Seq<Bit>) -> nat
    decreases bits.len(),
{
    if bits.len() == 0 {
        0
    } else {
        2 * bits_value(bits.drop_last()) + bits.last().value()
    }
}

/// The `width` low bits of `value`, first bit most significant.
pub open spec fn bits_of(value: nat, width: nat) -> Seq<Bit>
    decreases width,
{
    if width == 0 {
        Seq::empty()
    } else {
        bits_of(value / 2, (width - 1) as nat).push(Bit::of_nat(value % 2))
    }
}

/// One more than the largest `usize`: what packed numbers wrap around at.
pub open spec fn word_range() -> nat {
    (usize::MAX as nat) + 1
}

/// `bits_of` gives as many bits as it is asked for.
pub proof fn lemma_bits_of_len(value: nat, width: nat)
    ensures
        bits_of(value, width).len() == width,
    decreases width,
{
    if width > 0 {
        lemma_bits_of_len(value / 2, (width - 1) as nat);
    }
}

/// A row of `n` bits spells a number below `2^n`.
pub proof fn lemma_bits_value_bound(bits: Seq<Bit>)
    ensures
        bits_value(bits) < pow2(bits.len()),
    decreases bits.len(),
{
    if bits.len() == 0 {
        lemma_pow2_pos(0);
    } else {
        lemma_bits_value_bound(bits.drop_last());
        lemma_pow2_unfold(bits.len());
    }
}

/// Packing after unpacking gives the number back, cut to the width asked for;
/// a number below `2^width` comes back unchanged.
pub proof fn lemma_bits_round_trip(value: nat, width: nat)
    ensures
        bits_value(bits_of(value, width)) == value % pow2(width),
        value < pow2(width) ==> bits_value(bits_of(value, width)) == value,
    decreases width,
{
    lemma_pow2_pos(width);
    if width == 0 {
        assert(pow2(0) == 1) by {
            vstd::arithmetic::power2::lemma2_to64();
        }
    } else {
        let rest = (width - 1) as nat;
        lemma_bits_round_trip(value / 2, rest);
        lemma_bits_of_len(value / 2, rest);
        lemma_pow2_unfold(width);
        lemma_pow2_pos(rest);
        let s = bits_of(value, width);
        assert(s.drop_last() =~= bits_of(value / 2, rest));
        assert(s.last() == Bit::of_nat(value % 2));
        let h = pow2(rest) as int;
        let q = (value / 2) as int;
        // value = 2 * q + value % 2 and q = h * (q / h) + q % h
        lemma_fundamental_div_mod(q, h);
        assert(value as int == (2 * h) * (q / h) + (2 * (q % h) + (value % 2) as int)) by (nonlinear_arith)
            requires
                q == h * (q / h) + q % h,
                value as int == 2 * q + (value % 2) as int,
        ;
        lemma_mod_multiples_vanish(q / h, 2 * (q % h) + (value % 2) as int, 2 * h);
        lemma_small_mod((2 * (q % h) + (value % 2) as int) as nat, (2 * h) as nat);
    }
    if value < pow2(width) {
        lemma_small_mod(value, pow2(width));
    }
}

/// An index comes back from the trip through `I` bits: unpacked by
/// `unpack_bits` and packed again by `pack_bits`, every index below `2^I` is
/// what it was.
pub proof fn lemma_index_round_trip<const I: usize>(index: usize)
    requires
        index < pow2(I as nat),
    ensures
        bits_value(bits_of(index as nat, I as nat)) % word_range() == index,
{
    lemma_bits_round_trip(index as nat, I as nat);
    lemma_small_mod(index as nat, word_range());
}

/// Unpacking after packing gives the row of bits back: no two rows of one
/// length spell the same number.
pub proof fn lemma_bits_of_value(bits: Seq<Bit>)
    ensures
        bits_of(bits_value(bits), bits.len()) == bits,
    decreases bits.len(),
{
    if bits.len() == 0 {
        assert(bits_of(bits_value(bits), 0) =~= bits);
    } else {
        lemma_bits_of_value(bits.drop_last());
        let v = bits_value(bits);
        assert(v / 2 == bits_value(bits.drop_last()));
        assert(Bit::of_nat(v % 2) == bits.last());
        assert(bits_of(v, bits.len()) =~= bits);
    }
}

/// A fixed number of bits read as one number, first bit most significant.
pub struct BitArray<const I: usize> {
    inner: [Bit; I],
}

impl<const I: usize> View for BitArray<I> {
    type V = Seq<Bit>;

    closed spec fn view(&self) -> Seq<Bit> {
        self.inner@
    }
}

impl<const I: usize> BitArray<I> {
    /// The row of bits `inner`.
    pub fn new(inner: [Bit; I]) -> (bits: Self)
        ensures
            bits@ == inner@,
    {
        Self { inner }
    }
}

/// Packs a row of bits into a number, dropping what does not fit a `usize`.
pub fn pack_bits<const I: usize>(bits: &[Bit; I]) -> (sum: usize)
    ensures
        sum == bits_value(bits@) % word_range(),
{
    let mut sum: usize = 0;
    let mut i: usize = 0;
    proof {
        assert(bits@.take(0) =~= Seq::<Bit>::empty());
        lemma_small_mod(0, word_range());
    }
    while i < I
        invariant
            i <= I,
            bits@.len() == I,
            sum == bits_value(bits@.take(i as int)) % word_range(),
        decreases I - i,
    {
        let bit: usize = match bits[i] {
            Bit::Zero => 0,
            Bit::One => 1,
        };
        let doubled = sum.wrapping_mul(2);
        let next = doubled.wrapping_add(bit);
        proof {
            let m = word_range() as int;
            let before = bits@.take(i as int);
            let now = bits@.take(i + 1);
            assert(now.drop_last() =~= before);
            assert(now.last() == bits@[i as int]);
            let x = bits_value(before) as int;
            assert(bits_value(now) == 2 * x + bit);
            assert(doubled == (sum * 2) % m);
            lemma_mul_mod_noop_left(x, 2, m);
            assert(doubled == (x * 2) % m);
            lemma_small_mod(bit as nat, m as nat);
            lemma_add_mod_noop(x * 2, bit as int, m);
            assert((doubled + bit) % m == (x * 2 + bit) % m);
            if doubled + bit > usize::MAX {
                lemma_mod_multiples_vanish(-1, doubled + bit, m);
                lemma_small_mod((doubled + bit - m) as nat, m as nat);
            } else {
                lemma_small_mod((doubled + bit) as nat, m as nat);
            }
        }
        sum = next;
        i += 1;
    }
    proof {
        assert(bits@.take(I as int) =~= bits@);
    }
    sum
}

/// Unpacks the `I` low bits of a number.
pub fn unpack_bits<const I: usize>(value: usize) -> (bits: [Bit; I])
    ensures
        bits@ == bits_of(value as nat, I as nat),
{
    let mut res = [Bit::Zero; I];
    let mut v = value;
    let mut i: usize = I;
    proof {
        lemma_bits_of_len(value as nat, I as nat);
        assert(bits_of(v as nat, i as nat) + res@.subrange(i as int, I as int) =~= bits_of(
            value as nat,
            I as nat,
        ));
    }
    while i > 0
        invariant
            i <= I,
            res@.len() == I,
            bits_of(v as nat, i as nat) + res@.subrange(i as int, I as int) == bits_of(
                value as nat,
                I as nat,
            ),
        decreases i,
    {
        let ghost before = res@;
        i -= 1;
        let bit = if v % 2 == 0 {
            Bit::Zero
        } else {
            Bit::One
        };
        res[i] = bit;
        proof {
            lemma_bits_of_len((v / 2) as nat, i as nat);
            assert(res@.subrange(i as int, I as int) =~= seq![bit] + before.subrange(
                i + 1,
                I as int,
            ));
            assert(bits_of((v / 2) as nat, i as nat) + res@.subrange(i as int, I as int)
                =~= bits_of(v as nat, (i + 1) as nat) + before.subrange(i + 1, I as int));
        }
        v = v / 2;
    }
    proof {
        assert(res@.subrange(0, I as int) =~= res@);
        assert(bits_of(v as nat, 0) + res@ =~= res@);
    }
    res
}

/// The array of the `I` low bits of `value`.
pub open spec fn bit_array_of<const I: usize>(value: usize) -> BitArray<I> {
    choose|bits: BitArray<I>| bits@ == bits_of(value as nat, I as nat)
}

impl<const I: usize> From<usize> for BitArray<I> {
    fn from(value: usize) -> (bits: Self)
        ensures
            bits@ == bits_of(value as nat, I as nat),
    {
        let bits = Self::new(unpack_bits::<I>(value));
        proof {
            let chosen = bit_array_of::<I>(value);
            assert(chosen@ == bits@);
            assert(chosen.inner =~= bits.inner);
        }
        bits
    }
}

impl<const I: usize> FromSpecImpl<usize> for BitArray<I> {
    open spec fn obeys_from_spec() -> bool {
        true
    }

    open spec fn from_spec(value: usize) -> Self {
        bit_array_of::<I>(value)
    }
}

impl<const I: usize> From<BitArray<I>> for usize {
    fn from(bits: BitArray<I>) -> (value: usize)
        ensures
            value == bits_value(bits@) % word_range(),
    {
        pack_bits(&bits.inner)
    }
}

impl<const I: usize> FromSpecImpl<BitArray<I>> for usize {
    open spec fn obeys_from_spec() -> bool {
        true
    }

    open spec fn from_spec(bits: BitArray<I>) -> usize {
        (bits_value(bits@) % word_range()) as usize
    }
}

/// The rows of a truth table: an input combination and the output for it.
pub type Table<const I: usize> = Vec<([Bit; I], Bit)>;

/// Whether some row is about the input combination that packs to `k`.
pub open spec fn has_row<const I: usize>(rows: Seq<([Bit; I], Bit)>, k: nat) -> bool {
    exists|r: int| 0 <= r < rows.len() && (#[trigger] rows[r]).0@ == bits_of(k, I as nat)
}

/// Whether a list of rows names every combination of `I` input bits exactly
/// once: as many rows as combinations, none twice, none missing.
pub open spec fn covers_once<const I: usize>(rows: Seq<([Bit; I], Bit)>) -> bool {
    &&& rows.len() == pow2(I as nat)
    &&& forall|a: int, b: int|
        0 <= a < b < rows.len() ==> (#[trigger] rows[a]).0@ != (#[trigger] rows[b]).0@
    &&& forall|k: nat| k < pow2(I as nat) ==> #[trigger] has_row(rows, k)
}

/// The digits of a row of bits with commas between them.
pub open spec fn joined_digits(bits: Seq<Bit>) -> Seq<char>
    decreases bits.len(),
{
    if bits.len() == 0 {
        Seq::empty()
    } else if bits.len() == 1 {
        bits[0].digit()
    } else {
        joined_digits(bits.drop_last()) + ","@ + bits.last().digit()
    }
}

/// The line of one row of a truth table: the inputs in brackets, an arrow and
/// the output.
pub open spec fn row_line(inputs: Seq<Bit>, out: Bit) -> Seq<char> {
    "("@ + joined_digits(inputs) + ") -> "@ + out.digit() + "\n"@
}

/// The lines of a truth table with the output column `outputs` over inputs
/// of `width` bits, in increasing order of the packed input.
pub open spec fn table_lines(outputs: Seq<Bit>, width: nat) -> Seq<char>
    decreases outputs.len(),
{
    if outputs.len() == 0 {
        Seq::empty()
    } else {
        table_lines(outputs.drop_last(), width) + row_line(
            bits_of((outputs.len() - 1) as nat, width),
            outputs.last(),
        )
    }
}

/// A boolean function of `I` inputs, held as its truth table.
///
/// The table is total and kept in increasing order of the packed input, so a
/// row is found by its number.
pub struct Gate<const I: usize> {
    table: Table<I>,
}

impl<const I: usize> View for Gate<I> {
    type V = Seq<Bit>;

    /// The output column: entry `k` is the output for the input that packs to `k`.
    closed spec fn view(&self) -> Seq<Bit> {
        Seq::new(self.table@.len(), |k: int| self.table@[k].1)
    }
}

/// Whether `count` is `2^I`.
fn is_table_len<const I: usize>(count: usize) -> (yes: bool)
    ensures
        yes <==> count == pow2(I as nat),
{
    let mut size: usize = 1;
    let mut done: usize = 0;
    proof {
        vstd::arithmetic::power2::lemma2_to64();
    }
    while done < I
        invariant
            done <= I,
            size == pow2(done as nat),
            size <= count || done == 0,
        decreases I - done,
    {
        proof {
            lemma_pow2_unfold((done + 1) as nat);
        }
        if size > count / 2 {
            // 2^(done + 1) > count, and the powers only grow from here
            proof {
                if done + 1 < I {
                    vstd::arithmetic::power2::lemma_pow2_strictly_increases(
                        (done + 1) as nat,
                        I as nat,
                    );
                }
            }
            return false;
        }
        size = size * 2;
        done += 1;
    }
    size == count
}

impl<const I: usize> Gate<I> {
    /// Rows in increasing order of their packed input, one for each combination.
    #[verifier::type_invariant]
    spec fn inv(&self) -> bool {
        &&& self.table@.len() == pow2(I as nat)
        &&& forall|k: int|
            0 <= k < self.table@.len() ==> (#[trigger] self.table@[k]).0@ == bits_of(
                k as nat,
                I as nat,
            )
    }

    /// A gate has one output for each combination of its inputs.
    pub open spec fn wf(&self) -> bool {
        self@.len() == pow2(I as nat)
    }

    /// The output for a row of input bits.
    pub open spec fn spec_evaluate(&self, input: Seq<Bit>) -> Bit {
        self@[bits_value(input) as int]
    }

    /// Builds a gate from rows given in any order.
    ///
    /// Fails with `MalformedGate` unless the rows name every input combination
    /// exactly once.
    pub fn from_table(table: Table<I>) -> (res: Result<Self, Error>)
        ensures
            res is Ok <==> covers_once(table@),
            res matches Err(e) ==> e == Error::MalformedGate,
            res matches Ok(gate) ==> gate.wf() && forall|r: int|
                0 <= r < table@.len() ==> gate.spec_evaluate((#[trigger] table@[r]).0@)
                    == table@[r].1,
    {
        let count = table.len();
        if !is_table_len::<I>(count) {
            return Err(Error::MalformedGate);
        }
        let mut slots: Vec<Option<Bit>> = Vec::new();
        let mut k: usize = 0;
        while k < count
            invariant
                k <= count,
                slots@.len() == k,
                forall|j: int| 0 <= j < k ==> slots@[j] is None,
            decreases count - k,
        {
            slots.push(None);
            k += 1;
        }
        let mut r: usize = 0;
        while r < count
            invariant
                r <= count,
                count == table@.len(),
                count == pow2(I as nat),
                slots@.len() == count,
                forall|a: int, b: int|
                    0 <= a < b < r ==> (#[trigger] table@[a]).0@ != (#[trigger] table@[b]).0@,
                forall|j: int|
                    0 <= j < count ==> ((#[trigger] slots@[j]) is Some <==> exists|a: int|
                        0 <= a < r && bits_value((#[trigger] table@[a]).0@) == j),
                forall|a: int|
                    0 <= a < r ==> bits_value((#[trigger] table@[a]).0@) < count && slots@[bits_value(
                        table@[a].0@,
                    ) as int] == Some(table@[a].1),
            decreases count - r,
        {
            let idx = pack_bits(&table[r].0);
            proof {
                assert(table@[r as int].0@.len() == I);
                lemma_bits_value_bound(table@[r as int].0@);
                lemma_small_mod(bits_value(table@[r as int].0@), word_range());
            }
            if slots[idx].is_some() {
                proof {
                    let a = choose|a: int| 0 <= a < r && bits_value((#[trigger] table@[a]).0@) == idx;
                    lemma_bits_of_value(table@[a].0@);
                    lemma_bits_of_value(table@[r as int].0@);
                    assert(table@[a].0@ == table@[r as int].0@);
                }
                return Err(Error::MalformedGate);
            }
            let ghost before = slots@;
            slots[idx] = Some(table[r].1);
            proof {
                assert forall|a: int, b: int| 0 <= a < b < r + 1 implies (#[trigger] table@[a]).0@ != (
                #[trigger] table@[b]).0@ by {
                    if b == r {
                        if table@[a].0@ == table@[b].0@ {
                            assert(bits_value(table@[a].0@) == idx);
                            assert(before[idx as int] is Some);
                        }
                    }
                }
                assert forall|j: int| 0 <= j < count implies ((#[trigger] slots@[j]) is Some <==> exists|
                    a: int,
                | 0 <= a < r + 1 && bits_value((#[trigger] table@[a]).0@) == j) by {
                    if j == idx {
                        assert(bits_value(table@[r as int].0@) == j);
                    } else {
                        if slots@[j] is Some {
                            assert(before[j] is Some);
                            let a = choose|a: int| 0 <= a < r && bits_value((#[trigger] table@[a]).0@) == j;
                            assert(0 <= a < r + 1 && bits_value(table@[a].0@) == j);
                        }
                        if exists|a: int| 0 <= a < r + 1 && bits_value((#[trigger] table@[a]).0@) == j {
                            let a = choose|a: int| 0 <= a < r + 1 && bits_value((#[trigger] table@[a]).0@) == j;
                            assert(a < r);
                            assert(before[j] is Some);
                        }
                    }
                }
                assert forall|a: int| 0 <= a < r + 1 implies bits_value((#[trigger] table@[a]).0@)
                    < count && slots@[bits_value(table@[a].0@) as int] == Some(table@[a].1) by {
                    if a < r {
                        assert(before[bits_value(table@[a].0@) as int] == Some(table@[a].1));
                        if bits_value(table@[a].0@) == idx {
                            assert(before[idx as int] is Some);
                        }
                    }
                }
            }
            r += 1;
        }
        let mut rows: Table<I> = Vec::new();
        let mut k: usize = 0;
        while k < count
            invariant
                k <= count,
                count == table@.len(),
                count == pow2(I as nat),
                slots@.len() == count,
                rows@.len() == k,
                forall|j: int|
                    0 <= j < k ==> (#[trigger] rows@[j]).0@ == bits_of(j as nat, I as nat),
                forall|j: int| 0 <= j < k ==> #[trigger] slots@[j] == Some(rows@[j].1),
                forall|a: int, b: int|
                    0 <= a < b < count ==> (#[trigger] table@[a]).0@ != (#[trigger] table@[b]).0@,
                forall|j: int|
                    0 <= j < count ==> ((#[trigger] slots@[j]) is Some <==> exists|a: int|
                        0 <= a < count && bits_value((#[trigger] table@[a]).0@) == j),
                forall|a: int|
                    0 <= a < count ==> bits_value((#[trigger] table@[a]).0@) < count && slots@[bits_value(
                        table@[a].0@,
                    ) as int] == Some(table@[a].1),
            decreases count - k,
        {
            match slots[k] {
                None => {
                    proof {
                        // no row spells `k`, so the combination `bits_of(k)` is missing
                        if has_row(table@, k as nat) {
                            let a = choose|a: int|
                                0 <= a < table@.len() && (#[trigger] table@[a]).0@ == bits_of(
                                    k as nat,
                                    I as nat,
                                );
                            lemma_bits_round_trip(k as nat, I as nat);
                            assert(bits_value(table@[a].0@) == k);
                        }
                    }
                    return Err(Error::MalformedGate);
                },
                Some(out) => {
                    rows.push((unpack_bits::<I>(k), out));
                },
            }
            k += 1;
        }
        let gate = Gate { table: rows };
        proof {
            assert forall|j: nat| j < pow2(I as nat) implies #[trigger] has_row(table@, j) by {
                assert(slots@[j as int] is Some);
                let a = choose|a: int| 0 <= a < count && bits_value((#[trigger] table@[a]).0@) == j;
                lemma_bits_of_value(table@[a].0@);
            }
            assert forall|a: int| 0 <= a < table@.len() implies gate.spec_evaluate(
                (#[trigger] table@[a]).0@,
            ) == table@[a].1 by {
                let j = bits_value(table@[a].0@) as int;
                assert(slots@[j] == Some(rows@[j].1));
            }
        }
        Ok(gate)
    }

    /// The output for one combination of inputs.
    pub fn evaluate(&self, input: &[Bit; I]) -> (out: Bit)
        ensures
            out == self.spec_evaluate(input@),
    {
        proof {
            use_type_invariant(self);
            assert(input@.len() == I);
            assert(self.table@.len() == self.table.len());
            lemma_bits_value_bound(input@);
            lemma_small_mod(bits_value(input@), word_range());
        }
        let idx = pack_bits(input);
        self.table[idx].1
    }

    /// The truth table as text, one line for each row: `(0,1) -> 1`.
    pub fn to_string(&self) -> (text: String)
        ensures
            text@ == table_lines(self@, I as nat),
    {
        proof {
            use_type_invariant(self);
        }
        let mut text = String::new();
        let mut r: usize = 0;
        assert(self@.take(0) =~= Seq::<Bit>::empty());
        while r < self.table.len()
            invariant
                r <= self.table@.len(),
                self.inv(),
                text@ == table_lines(self@.take(r as int), I as nat),
            decreases self.table@.len() - r,
        {
            let ghost before = text@;
            let ghost inputs = self.table@[r as int].0@;
            text.append("(");
            let mut i: usize = 0;
            assert(inputs.take(0) =~= Seq::<Bit>::empty());
            assert(text@ =~= before + "("@ + joined_digits(inputs.take(0)));
            while i < I
                invariant
                    i <= I,
                    r < self.table@.len(),
                    inputs == self.table@[r as int].0@,
                    inputs.len() == I,
                    text@ == before + "("@ + joined_digits(inputs.take(i as int)),
                decreases I - i,
            {
                let ghost so_far = text@;
                if i > 0 {
                    text.append(",");
                }
                text.append(self.table[r].0[i].to_string().as_str());
                proof {
                    let now = inputs.take(i + 1);
                    assert(now.drop_last() =~= inputs.take(i as int));
                    assert(now.last() == inputs[i as int]);
                    if i == 0 {
                        assert(now[0] == inputs[0]);
                        assert(joined_digits(now) == inputs[0].digit());
                        assert(text@ =~= before + "("@ + joined_digits(now));
                    } else {
                        assert(text@ =~= so_far + ","@ + inputs[i as int].digit());
                        assert(text@ =~= before + "("@ + joined_digits(now));
                    }
                }
                i += 1;
            }
            text.append(") -> ");
            text.append(self.table[r].1.to_string().as_str());
            text.append("\n");
            proof {
                assert(inputs.take(I as int) =~= inputs);
                let now = self@.take(r + 1);
                assert(now.drop_last() =~= self@.take(r as int));
                assert(now.last() == self.table@[r as int].1);
                assert(inputs == bits_of(r as nat, I as nat));
                assert(text@ =~= before + row_line(inputs, self.table@[r as int].1));
            }
            r += 1;
        }
        assert(self@.take(self.table@.len() as int) =~= self@);
        text
    }

    /// All rows, in increasing order of the packed input.
    pub fn table(&self) -> (rows: &Table<I>)
        ensures
            self.wf(),
            rows@.len() == self@.len(),
            forall|k: int|
                0 <= k < rows@.len() ==> (#[trigger] rows@[k]).0@ == bits_of(k as nat, I as nat)
                    && rows@[k].1 == self@[k],
    {
        proof {
            use_type_invariant(self);
        }
        &self.table
    }
}

/// The row of two bits `a`, `b`.
pub open spec fn bit_pair(a: Bit, b: Bit) -> Seq<Bit> {
    seq![a, b]
}

/// Two bits spell twice the first plus the second.
pub proof fn lemma_pair_value(a: Bit, b: Bit)
    ensures
        bits_value(bit_pair(a, b)) == 2 * a.value() + b.value(),
{
    let pair = bit_pair(a, b);
    let head = pair.drop_last();
    assert(head =~= seq![a]);
    assert(head.drop_last() =~= Seq::<Bit>::empty());
    assert(bits_value(head.drop_last()) == 0);
    assert(bits_value(head) == a.value());
}

/// The two-input gate with the given outputs for the inputs 00, 01, 10, 11.
fn two_input_gate(o00: Bit, o01: Bit, o10: Bit, o11: Bit) -> (gate: Gate<2>)
    ensures
        gate.wf(),
        gate@ == seq![o00, o01, o10, o11],
{
    let table: Table<2> = vec![
        ([Bit::Zero, Bit::Zero], o00),
        ([Bit::Zero, Bit::One], o01),
        ([Bit::One, Bit::Zero], o10),
        ([Bit::One, Bit::One], o11),
    ];
    proof {
        vstd::arithmetic::power2::lemma2_to64();
        assert forall|k: int| 0 <= k < 4 implies (#[trigger] table@[k]).0@ == bits_of(k as nat, 2) by {
            lemma_bits_of_value(table@[k].0@);
            lemma_pair_value(table@[k].0@[0], table@[k].0@[1]);
            assert(table@[k].0@ =~= seq![table@[k].0@[0], table@[k].0@[1]]);
        }
    }
    let gate = Gate { table };
    assert(gate@ =~= seq![o00, o01, o10, o11]);
    gate
}

/// The AND gate: one exactly when both inputs are one.
pub fn and_gate() -> (gate: Gate<2>)
    ensures
        gate.wf(),
        gate@ == seq![Bit::Zero, Bit::Zero, Bit::Zero, Bit::One],
        forall|a: Bit, b: Bit| #[trigger]
            gate.spec_evaluate(bit_pair(a, b)) == Bit::of_bool(a.is_one() && b.is_one()),
{
    let gate = two_input_gate(Bit::Zero, Bit::Zero, Bit::Zero, Bit::One);
    assert forall|a: Bit, b: Bit| #[trigger]
        gate.spec_evaluate(bit_pair(a, b)) == Bit::of_bool(a.is_one() && b.is_one()) by {
        lemma_pair_value(a, b);
    }
    gate
}

/// The OR gate: one when at least one input is one.
pub fn or_gate() -> (gate: Gate<2>)
    ensures
        gate.wf(),
        gate@ == seq![Bit::Zero, Bit::One, Bit::One, Bit::One],
        forall|a: Bit, b: Bit| #[trigger]
            gate.spec_evaluate(bit_pair(a, b)) == Bit::of_bool(a.is_one() || b.is_one()),
{
    let gate = two_input_gate(Bit::Zero, Bit::One, Bit::One, Bit::One);
    assert forall|a: Bit, b: Bit| #[trigger]
        gate.spec_evaluate(bit_pair(a, b)) == Bit::of_bool(a.is_one() || b.is_one()) by {
        lemma_pair_value(a, b);
    }
    gate
}

/// The XOR gate: one when the inputs differ.
pub fn xor_gate() -> (gate: Gate<2>)
    ensures
        gate.wf(),
        gate@ == seq![Bit::Zero, Bit::One, Bit::One, Bit::Zero],
        forall|a: Bit, b: Bit| #[trigger] gate.spec_evaluate(bit_pair(a, b)) == Bit::of_bool(a != b),
{
    let gate = two_input_gate(Bit::Zero, Bit::One, Bit::One, Bit::Zero);
    assert forall|a: Bit, b: Bit| #[trigger]
        gate.spec_evaluate(bit_pair(a, b)) == Bit::of_bool(a != b) by {
        lemma_pair_value(a, b);
    }
    gate
}

/// The NAND gate: zero exactly when both inputs are one.
pub fn nand_gate() -> (gate: Gate<2>)
    ensures
        gate.wf(),
        gate@ == seq![Bit::One, Bit::One, Bit::One, Bit::Zero],
        forall|a: Bit, b: Bit| #[trigger]
            gate.spec_evaluate(bit_pair(a, b)) == Bit::of_bool(!(a.is_one() && b.is_one())),
{
    let gate = two_input_gate(Bit::One, Bit::One, Bit::One, Bit::Zero);
    assert forall|a: Bit, b: Bit| #[trigger]
        gate.spec_evaluate(bit_pair(a, b)) == Bit::of_bool(!(a.is_one() && b.is_one())) by {
        lemma_pair_value(a, b);
    }
    gate
}

} // verus!
