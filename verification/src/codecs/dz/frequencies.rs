//! How often symbols occur, and what they will cost.

use vstd::arithmetic::power2::pow2;
use vstd::prelude::*;

use crate::codecs::dz::coder::Model;
use crate::codecs::dz::fault::DzFault;
use crate::codecs::dz::model::models_of;
use crate::codecs::dz::range::{bit_length, bit_length_u64, AdaptiveModel};
use crate::codecs::dz::settings::{table_symbols, RangeSettings, TOP_SYMBOLS};
use crate::codecs::dz::stream::next_table;
use crate::codecs::dz::tokens::group_of;
use crate::math::{lemma_pow2_monotonic, power_of_two};

verus! {

/// One more occurrence.
pub open spec fn bumped(counts: Seq<u64>, i: int) -> Seq<u64> {
    counts.update(
        i,
        if counts[i] == u64::MAX {
            u64::MAX
        } else {
            (counts[i] + 1) as u64
        },
    )
}

/// The counts behind a list of lists of them.
pub open spec fn tables_of(tables: Seq<Vec<u64>>) -> Seq<Seq<u64>> {
    Seq::new(tables.len(), |i: int| tables[i]@)
}

/// Counts the groups of a number; nothing where a group has no counter.
pub open spec fn count_digits(tables: Seq<Seq<u64>>, bits: u8, table: int, value: int) -> Option<
    Seq<Seq<u64>>,
>
    decreases value,
    when bits >= 1 && value >= 0
    via count_digits_ends
{
    let limit = pow2((bits - 1) as nat) as int;
    let group = group_of(value, limit);
    if bits <= 1 && value > 0 || !(0 <= table < tables.len()) || group >= tables[table].len() {
        None
    } else {
        let after = tables.update(table, bumped(tables[table], group));
        if value < limit {
            Some(after)
        } else {
            count_digits(after, bits, next_table(table, after.len()), value / limit)
        }
    }
}

#[via_fn]
proof fn count_digits_ends(tables: Seq<Seq<u64>>, bits: u8, table: int, value: int) {
    crate::codecs::dz::tokens::lemma_limit(bits);
    crate::codecs::dz::tokens::lemma_smaller(value, pow2((bits - 1) as nat) as int);
}

/// Every table has `symbols` counters.
pub open spec fn counters(tables: Seq<Seq<u64>>, symbols: nat) -> bool {
    &&& tables.len() > 0
    &&& forall|i: int| 0 <= i < tables.len() ==> (#[trigger] tables[i]).len() == symbols
}

/// With a counter for every group, numbers can be counted.
pub proof fn lemma_count_digits(tables: Seq<Seq<u64>>, bits: u8, table: int, value: int)
    requires
        bits >= 1,
        value >= 0,
        0 <= table < tables.len(),
        counters(tables, pow2(bits as nat)),
    ensures
        bits >= 2 ==> count_digits(tables, bits, table, value) is Some,
        count_digits(tables, bits, table, value) matches Some(after) ==> counters(
            after,
            pow2(bits as nat),
        ) && after.len() == tables.len(),
    decreases value,
{
    crate::codecs::dz::tokens::lemma_limit(bits);
    let limit = pow2((bits - 1) as nat) as int;
    crate::codecs::dz::tokens::lemma_smaller(value, limit);
    if bits >= 2 || value == 0 {
        let group = group_of(value, limit);
        assert(tables[table].len() == pow2(bits as nat));
        let after = tables.update(table, bumped(tables[table], group));
        assert(counters(after, pow2(bits as nat)));
        if value >= limit {
            lemma_count_digits(after, bits, next_table(table, after.len()), value / limit);
        }
    }
}

fn bump(counts: &mut Vec<u64>, i: usize)
    requires
        i < old(counts)@.len(),
    ensures
        final(counts)@ == bumped(old(counts)@, i as int),
{
    if counts[i] < u64::MAX {
        counts.set(i, counts[i] + 1);
    }
    assert(counts@ =~= bumped(old(counts)@, i as int));
}

/// Counts the groups of a number; tells whether every group has a counter.
fn count_grouped(tables: &mut Vec<Vec<u64>>, bits: u8, value: usize) -> (done: bool)
    requires
        1 <= bits <= 15,
    ensures
        done == (count_digits(tables_of(old(tables)@), bits, 0, value as int) is Some),
        done ==> count_digits(tables_of(old(tables)@), bits, 0, value as int) == Some(
            tables_of(final(tables)@),
        ),
        final(tables)@.len() == old(tables)@.len(),
{
    proof {
        vstd::arithmetic::power2::lemma2_to64();
        lemma_pow2_monotonic((bits - 1) as nat, 14);
        crate::codecs::dz::tokens::lemma_limit(bits);
    }
    let limit: usize = power_of_two(bits as usize - 1) as usize;
    let mut rest: usize = value;
    let mut table: usize = 0;
    let ghost whole = count_digits(tables_of(tables@), bits, 0, value as int);
    loop
        invariant
            1 <= bits <= 15,
            limit == pow2((bits - 1) as nat),
            1 <= limit <= 0x4000,
            bits >= 2 ==> limit >= 2,
            tables@.len() == old(tables)@.len(),
            whole == count_digits(tables_of(tables@), bits, table as int, rest as int),
            whole == count_digits(tables_of(old(tables)@), bits, 0, value as int),
        decreases rest,
    {
        proof {
            crate::codecs::dz::tokens::lemma_smaller(rest as int, limit as int);
        }
        if bits <= 1 && rest > 0 || table >= tables.len() {
            return false;
        }
        let group: usize = rest % limit + (if rest >= limit {
            limit
        } else {
            0
        });
        if group >= tables[table].len() {
            return false;
        }
        let ghost before = tables@;
        bump(&mut tables[table], group);
        proof {
            assert(tables_of(tables@) =~= tables_of(before).update(
                table as int,
                bumped(before[table as int]@, group as int),
            ));
        }
        if rest < limit {
            return true;
        }
        rest = rest / limit;
        if tables.len() - table > 1 {
            table = table + 1;
        } else {
            table = tables.len() - 1;
        }
    }
}

/// The sum of all counts, at most the largest 64-bit number.
pub open spec fn capped_sum(counts: Seq<u64>, n: nat) -> int
    decreases n,
{
    if n == 0 {
        0
    } else {
        let sum = capped_sum(counts, (n - 1) as nat) + counts[n - 1];
        if sum > u64::MAX {
            u64::MAX as int
        } else {
            sum
        }
    }
}

/// About how many bits a symbol takes, by its share of the occurrences.
pub open spec fn symbol_cost(counts: Seq<u64>, i: int) -> int {
    bit_length((capped_sum(counts, counts.len()) / 2) as nat) - bit_length((counts[i] / 2) as nat)
}

/// About how many bits each symbol takes.
pub open spec fn symbol_costs(counts: Seq<u64>) -> Seq<i32> {
    Seq::new(counts.len(), |i: int| symbol_cost(counts, i) as i32)
}

/// About how many bits each symbol takes.
pub fn fixed_symbol_costs(counts: &Vec<u64>) -> (costs: Vec<i32>)
    ensures
        costs@ == symbol_costs(counts@),
{
    let mut total: u64 = 0;
    let mut i: usize = 0;
    while i < counts.len()
        invariant
            i <= counts@.len(),
            total == capped_sum(counts@, i as nat),
        decreases counts@.len() - i,
    {
        total = total.saturating_add(counts[i]);
        i += 1;
    }
    let total_bits: i32 = bit_length_u64(total / 2);
    let mut costs: Vec<i32> = Vec::with_capacity(counts.len());
    let mut i: usize = 0;
    while i < counts.len()
        invariant
            i <= counts@.len(),
            costs@.len() == i,
            0 <= total_bits <= 64,
            total == capped_sum(counts@, counts@.len()),
            total_bits == bit_length((total / 2) as nat),
            costs@ == symbol_costs(counts@).take(i as int),
        decreases counts@.len() - i,
    {
        costs.push(total_bits - bit_length_u64(counts[i] / 2));
        i += 1;
        assert(costs@ =~= symbol_costs(counts@).take(i as int));
    }
    assert(costs@ =~= symbol_costs(counts@));
    costs
}

/// What the symbols of a chunk cost.
#[derive(Debug)]
pub struct DzFixedCosts {
    pub top: Vec<i32>,
    pub offsets: Vec<Vec<Vec<i32>>>,
    pub offset_bits: u8,
}

/// The costs belong to the counts of a context.
pub open spec fn row_costs(row: Seq<Vec<i32>>, tables: Seq<Vec<u64>>) -> bool {
    &&& row.len() == tables.len()
    &&& forall|t: int|
        0 <= t < row.len() ==> (#[trigger] row[t])@ == symbol_costs(tables[t]@)
}

/// The costs belong to the counts of all contexts.
pub open spec fn all_costs(costs: Seq<Vec<Vec<i32>>>, offsets: Seq<Vec<Vec<u64>>>) -> bool {
    &&& costs.len() == offsets.len()
    &&& forall|c: int| 0 <= c < costs.len() ==> row_costs((#[trigger] costs[c])@, offsets[c]@)
}

/// The costs of all symbols of the tables of all contexts.
fn offset_costs(offsets: &Vec<Vec<Vec<u64>>>) -> (costs: Vec<Vec<Vec<i32>>>)
    ensures
        all_costs(costs@, offsets@),
{
    let mut costs: Vec<Vec<Vec<i32>>> = Vec::with_capacity(offsets.len());
    let mut context: usize = 0;
    while context < offsets.len()
        invariant
            context <= offsets@.len(),
            costs@.len() == context,
            forall|c: int|
                0 <= c < context ==> row_costs((#[trigger] costs@[c])@, offsets@[c]@),
        decreases offsets@.len() - context,
    {
        let tables = &offsets[context];
        let mut row: Vec<Vec<i32>> = Vec::with_capacity(tables.len());
        let mut table: usize = 0;
        while table < tables.len()
            invariant
                table <= tables@.len(),
                row@.len() == table,
                forall|t: int|
                    0 <= t < table ==> (#[trigger] row@[t])@ == symbol_costs(tables@[t]@),
            decreases tables@.len() - table,
        {
            row.push(fixed_symbol_costs(&tables[table]));
            table += 1;
        }
        costs.push(row);
        context += 1;
    }
    costs
}

/// A sum that stays within 32 bits.
pub open spec fn capped(sum: int) -> int {
    if sum > i32::MAX {
        i32::MAX as int
    } else if sum < i32::MIN {
        i32::MIN as int
    } else {
        sum
    }
}

/// About how many bits a symbol takes in a model as it is now.
pub open spec fn model_cost(model: Model, symbol: int) -> int {
    if model.frequencies[symbol] == 0 {
        -1
    } else {
        bit_length((model.total() / 2) as nat) - bit_length((model.frequencies[symbol] / 2) as nat)
    }
}

/// What one group costs: by the models as they are now, or by fixed costs.
pub open spec fn group_cost(
    dynamic: bool,
    models: Seq<Model>,
    costs: Seq<Seq<i32>>,
    table: int,
    group: int,
) -> Result<int, DzFault> {
    if dynamic {
        if table >= models.len() {
            Err(DzFault::DynamicCost)
        } else if group >= models[table].frequencies.len() {
            Err(
                DzFault::SymbolOutsideModel {
                    symbol: group as usize,
                    symbols: models[table].frequencies.len() as usize,
                },
            )
        } else {
            Ok(model_cost(models[table], group))
        }
    } else {
        if table >= costs.len() || group >= costs[table].len() {
            Err(DzFault::FixedCost)
        } else {
            Ok(costs[table][group] as int)
        }
    }
}

/// What the groups of a number cost together with an earlier sum.
pub open spec fn digits_cost(
    dynamic: bool,
    models: Seq<Model>,
    costs: Seq<Seq<i32>>,
    bits: u8,
    table: int,
    value: int,
    sum: int,
) -> Result<int, DzFault>
    decreases value,
    when bits >= 1 && value >= 0
    via digits_cost_ends
{
    let limit = pow2((bits - 1) as nat) as int;
    match group_cost(dynamic, models, costs, table, group_of(value, limit)) {
        Err(fault) => Err(fault),
        Ok(cost) => {
            let sum = capped(sum + cost);
            if value < limit {
                Ok(sum)
            } else if bits <= 1 {
                Err(DzFault::GroupedTooLarge)
            } else {
                digits_cost(
                    dynamic,
                    models,
                    costs,
                    bits,
                    next_table(
                        table,
                        if dynamic {
                            models.len()
                        } else {
                            costs.len()
                        },
                    ),
                    value / limit,
                    sum,
                )
            }
        },
    }
}

#[via_fn]
proof fn digits_cost_ends(
    dynamic: bool,
    models: Seq<Model>,
    costs: Seq<Seq<i32>>,
    bits: u8,
    table: int,
    value: int,
    sum: int,
) {
    crate::codecs::dz::tokens::lemma_limit(bits);
    crate::codecs::dz::tokens::lemma_smaller(value, pow2((bits - 1) as nat) as int);
}

/// The costs behind a list of lists of them.
pub open spec fn costs_of(tables: Seq<Vec<i32>>) -> Seq<Seq<i32>> {
    Seq::new(tables.len(), |i: int| tables[i]@)
}

/// The codes from which on the models as they are now tell the cost.
pub const DYNAMIC_CODE: usize = 2000;

fn capped_sum_of(a: i32, b: i32) -> (sum: i32)
    ensures
        sum == capped(a + b),
{
    let sum: i64 = a as i64 + b as i64;
    if sum > i32::MAX as i64 {
        i32::MAX
    } else if sum < i32::MIN as i64 {
        i32::MIN
    } else {
        sum as i32
    }
}

impl DzFixedCosts {
    /// About how many bits a distance code takes. Large codes go by the models as they are now.
    pub fn grouped_cost(
        &self,
        dynamic_offsets: &Vec<Vec<AdaptiveModel>>,
        context: usize,
        bits: u8,
        value: usize,
    ) -> (result: Result<i32, DzFault>)
        requires
            1 <= bits <= 15,
        ensures
            match digits_cost(
                value >= DYNAMIC_CODE,
                if context < dynamic_offsets@.len() {
                    models_of(dynamic_offsets@[context as int]@)
                } else {
                    seq![]
                },
                if context < self.offsets@.len() {
                    costs_of(self.offsets@[context as int]@)
                } else {
                    seq![]
                },
                bits,
                0,
                value as int,
                0,
            ) {
                Ok(cost) => result matches Ok(got) && got == cost,
                Err(fault) => result == Err::<i32, DzFault>(fault),
            },
    {
        proof {
            vstd::arithmetic::power2::lemma2_to64();
            lemma_pow2_monotonic((bits - 1) as nat, 14);
            crate::codecs::dz::tokens::lemma_limit(bits);
        }
        let dynamic: bool = value >= DYNAMIC_CODE;
        let ghost models = if context < dynamic_offsets@.len() {
            models_of(dynamic_offsets@[context as int]@)
        } else {
            seq![]
        };
        let ghost costs = if context < self.offsets@.len() {
            costs_of(self.offsets@[context as int]@)
        } else {
            seq![]
        };
        let limit: usize = power_of_two(bits as usize - 1) as usize;
        let mut rest: usize = value;
        let mut table: usize = 0;
        let mut cost: i32 = 0;
        let ghost whole = digits_cost(dynamic, models, costs, bits, 0, value as int, 0);
        loop
            invariant
                1 <= bits <= 15,
                limit == pow2((bits - 1) as nat),
                1 <= limit <= 0x4000,
                bits >= 2 ==> limit >= 2,
                dynamic == (value >= DYNAMIC_CODE),
                models == (if context < dynamic_offsets@.len() {
                    models_of(dynamic_offsets@[context as int]@)
                } else {
                    seq![]
                }),
                costs == (if context < self.offsets@.len() {
                    costs_of(self.offsets@[context as int]@)
                } else {
                    seq![]
                }),
                whole == digits_cost(dynamic, models, costs, bits, 0, value as int, 0),
                whole == digits_cost(
                    dynamic,
                    models,
                    costs,
                    bits,
                    table as int,
                    rest as int,
                    cost as int,
                ),
            decreases rest,
        {
            proof {
                crate::codecs::dz::tokens::lemma_smaller(rest as int, limit as int);
            }
            let group: usize = rest % limit + (if rest >= limit {
                limit
            } else {
                0
            });
            let next: i32 = if dynamic {
                if context >= dynamic_offsets.len() || table >= dynamic_offsets[context].len() {
                    return Err(DzFault::DynamicCost);
                }
                match dynamic_offsets[context][table].estimated_cost(group) {
                    Ok(next) => next,
                    Err(fault) => return Err(fault),
                }
            } else {
                if context >= self.offsets.len() || table >= self.offsets[context].len() || group
                    >= self.offsets[context][table].len() {
                    return Err(DzFault::FixedCost);
                }
                self.offsets[context][table][group]
            };
            cost = capped_sum_of(cost, next);
            if rest < limit {
                return Ok(cost);
            }
            if bits <= 1 {
                return Err(DzFault::GroupedTooLarge);
            }
            rest = rest / limit;
            let count: usize = if dynamic {
                dynamic_offsets[context].len()
            } else {
                self.offsets[context].len()
            };
            if count - table > 1 {
                table = table + 1;
            } else {
                table = count - 1;
            }
        }
    }
}

/// The occurrences of the symbols of a chunk or of a common buffer.
#[derive(Debug)]
pub struct DzFrequencyCounts {
    pub top: Vec<u64>,
    pub offsets: Vec<Vec<Vec<u64>>>,
    pub offset_bits: u8,
}

/// How often symbols occur.
#[verifier::ext_equal]
pub struct Counts {
    pub top: Seq<u64>,
    pub offsets: Seq<Seq<Seq<u64>>>,
}

/// Nothing has occurred yet.
pub open spec fn no_counts(settings: RangeSettings, has_combuf: bool) -> Counts {
    let symbols = if has_combuf {
        TOP_SYMBOLS + pow2(settings.ref_length_table_size as nat)
    } else {
        TOP_SYMBOLS as int
    };
    Counts {
        top: Seq::new(symbols as nat, |i: int| 0u64),
        offsets: Seq::new(
            settings.offset_contexts as nat,
            |c: int|
                Seq::new(
                    settings.offset_tables as nat,
                    |t: int| Seq::new(pow2(settings.offset_table_size as nat), |i: int| 0u64),
                ),
        ),
    }
}

impl DzFrequencyCounts {
    /// The counts themselves.
    pub open spec fn counts(&self) -> Counts {
        Counts {
            top: self.top@,
            offsets: Seq::new(self.offsets@.len(), |c: int| tables_of(self.offsets@[c]@)),
        }
    }

    /// Every symbol has a counter.
    pub open spec fn fits(&self, settings: RangeSettings, symbols: nat) -> bool {
        &&& settings.valid()
        &&& self.top@.len() == symbols
        &&& self.offset_bits == settings.offset_table_size
        &&& self.offsets@.len() == settings.offset_contexts
        &&& forall|c: int|
            0 <= c < self.offsets@.len() ==> {
                &&& (#[trigger] self.offsets@[c])@.len() == settings.offset_tables
                &&& counters(
                    tables_of(self.offsets@[c]@),
                    pow2(settings.offset_table_size as nat),
                )
            }
    }

    /// Counters at zero.
    pub fn new(settings: RangeSettings, has_combuf: bool) -> (counts: DzFrequencyCounts)
        requires
            settings.valid(),
        ensures
            counts.fits(
                settings,
                if has_combuf {
                    (TOP_SYMBOLS + pow2(settings.ref_length_table_size as nat)) as nat
                } else {
                    TOP_SYMBOLS as nat
                },
            ),
            forall|i: int| 0 <= i < counts.top@.len() ==> #[trigger] counts.top@[i] == 0,
            forall|c: int, t: int, i: int|
                #![trigger counts.offsets@[c]@[t]@[i]]
                0 <= c < counts.offsets@.len() && 0 <= t < counts.offsets@[c]@.len() && 0 <= i
                    < counts.offsets@[c]@[t]@.len() ==> counts.offsets@[c]@[t]@[i] == 0,
            counts.counts() == no_counts(settings, has_combuf),
    {
        let top_symbols: usize = if has_combuf {
            TOP_SYMBOLS + table_symbols(settings.ref_length_table_size)
        } else {
            TOP_SYMBOLS
        };
        let symbols: usize = table_symbols(settings.offset_table_size);
        let mut offsets: Vec<Vec<Vec<u64>>> = Vec::with_capacity(
            settings.offset_contexts as usize,
        );
        let mut context: u8 = 0;
        while context < settings.offset_contexts
            invariant
                settings.valid(),
                context <= settings.offset_contexts,
                symbols == pow2(settings.offset_table_size as nat),
                offsets@.len() == context,
                forall|c: int|
                    0 <= c < context ==> {
                        &&& (#[trigger] offsets@[c])@.len() == settings.offset_tables
                        &&& counters(tables_of(offsets@[c]@), symbols as nat)
                    },
                forall|c: int, t: int, i: int|
                    #![trigger offsets@[c]@[t]@[i]]
                    0 <= c < context && 0 <= t < offsets@[c]@.len() && 0 <= i
                        < offsets@[c]@[t]@.len() ==> offsets@[c]@[t]@[i] == 0,
            decreases settings.offset_contexts - context,
        {
            let mut tables: Vec<Vec<u64>> = Vec::with_capacity(settings.offset_tables as usize);
            let mut table: u8 = 0;
            while table < settings.offset_tables
                invariant
                    table <= settings.offset_tables,
                    tables@.len() == table,
                    forall|t: int|
                        0 <= t < table ==> (#[trigger] tables@[t])@ == Seq::new(
                            symbols as nat,
                            |i: int| 0u64,
                        ),
                decreases settings.offset_tables - table,
            {
                let zeros: Vec<u64> = vec![0; symbols];
                assert(zeros@ =~= Seq::new(symbols as nat, |i: int| 0u64));
                tables.push(zeros);
                table += 1;
            }
            offsets.push(tables);
            context += 1;
        }
        let frequencies = DzFrequencyCounts {
            top: vec![0; top_symbols],
            offsets,
            offset_bits: settings.offset_table_size,
        };
        assert(frequencies.counts() =~= no_counts(settings, has_combuf)) by {
            assert forall|c: int| 0 <= c < frequencies.offsets@.len() implies tables_of(
                #[trigger] frequencies.offsets@[c]@,
            ) =~= no_counts(settings, has_combuf).offsets[c] by {
                let row = frequencies.offsets@[c]@;
                assert(counters(tables_of(row), pow2(settings.offset_table_size as nat)));
                assert forall|t: int| 0 <= t < row.len() implies #[trigger] tables_of(row)[t]
                    =~= no_counts(settings, has_combuf).offsets[c][t] by {
                    assert(tables_of(row)[t].len() == pow2(settings.offset_table_size as nat));
                    assert forall|i: int| 0 <= i < row[t]@.len() implies row[t]@[i] == 0 by {
                        assert(frequencies.offsets@[c]@[t]@[i] == 0);
                    }
                }
            }
        }
        frequencies
    }

    /// Counts a symbol of the top alphabet; tells whether the alphabet has it.
    pub fn count_top(&mut self, symbol: usize) -> (done: bool)
        ensures
            done == (symbol < old(self).top@.len()),
            final(self).top@ == (if done {
                bumped(old(self).top@, symbol as int)
            } else {
                old(self).top@
            }),
            final(self).offsets == old(self).offsets,
            final(self).offset_bits == old(self).offset_bits,
    {
        if symbol >= self.top.len() {
            return false;
        }
        bump(&mut self.top, symbol);
        true
    }

    /// Counts a distance code of a context; tells whether every group has a counter.
    pub fn count_offset(&mut self, context: usize, bits: u8, value: usize) -> (done: bool)
        requires
            1 <= bits <= 15,
        ensures
            final(self).top == old(self).top,
            final(self).offset_bits == old(self).offset_bits,
            final(self).offsets@.len() == old(self).offsets@.len(),
            done == (context < old(self).offsets@.len() && count_digits(
                tables_of(old(self).offsets@[context as int]@),
                bits,
                0,
                value as int,
            ) is Some),
            forall|c: int|
                0 <= c < final(self).offsets@.len() && c != context
                    ==> #[trigger] final(self).offsets@[c] == old(self).offsets@[c],
            done ==> {
                &&& final(self).offsets@[context as int]@.len() == old(
                    self,
                ).offsets@[context as int]@.len()
                &&& count_digits(
                    tables_of(old(self).offsets@[context as int]@),
                    bits,
                    0,
                    value as int,
                ) == Some(tables_of(final(self).offsets@[context as int]@))
            },
    {
        if context >= self.offsets.len() {
            return false;
        }
        count_grouped(&mut self.offsets[context], bits, value)
    }

    /// Counts a symbol of the top alphabet of a chunk.
    pub fn record_top(&mut self, symbol: usize) -> (result: Result<(), DzFault>)
        ensures
            final(self).offsets == old(self).offsets,
            final(self).offset_bits == old(self).offset_bits,
            if symbol < old(self).top@.len() {
                result is Ok && final(self).top@ == bumped(old(self).top@, symbol as int)
            } else {
                result == Err::<(), DzFault>(DzFault::AnalysisToken { symbol })
            },
    {
        if self.count_top(symbol) {
            Ok(())
        } else {
            Err(DzFault::AnalysisToken { symbol })
        }
    }

    /// Counts a distance code of a chunk.
    pub fn record_grouped(&mut self, context: usize, bits: u8, value: usize) -> (result: Result<
        (),
        DzFault,
    >)
        requires
            1 <= bits <= 15,
        ensures
            final(self).top == old(self).top,
            final(self).offset_bits == old(self).offset_bits,
            final(self).offsets@.len() == old(self).offsets@.len(),
            (result is Ok) == (context < old(self).offsets@.len() && count_digits(
                tables_of(old(self).offsets@[context as int]@),
                bits,
                0,
                value as int,
            ) is Some),
            result matches Err(fault) ==> fault == DzFault::AnalysisGroup,
            forall|c: int|
                0 <= c < final(self).offsets@.len() && c != context
                    ==> #[trigger] final(self).offsets@[c] == old(self).offsets@[c],
            result is Ok ==> {
                &&& final(self).offsets@[context as int]@.len() == old(
                    self,
                ).offsets@[context as int]@.len()
                &&& count_digits(
                    tables_of(old(self).offsets@[context as int]@),
                    bits,
                    0,
                    value as int,
                ) == Some(tables_of(final(self).offsets@[context as int]@))
            },
    {
        if self.count_offset(context, bits, value) {
            Ok(())
        } else {
            Err(DzFault::AnalysisGroup)
        }
    }

    /// The costs by these counts.
    pub fn into_costs(&self) -> (costs: DzFixedCosts)
        ensures
            costs.offset_bits == self.offset_bits,
            costs.top@ == symbol_costs(self.top@),
            all_costs(costs.offsets@, self.offsets@),
    {
        DzFixedCosts {
            top: fixed_symbol_costs(&self.top),
            offsets: offset_costs(&self.offsets),
            offset_bits: self.offset_bits,
        }
    }
}

/// The largest count, plus one.
pub open spec fn largest(counts: Seq<u64>, n: nat) -> int
    decreases n,
{
    if n == 0 {
        1
    } else {
        let rest = largest(counts, (n - 1) as nat);
        if more(counts[n - 1]) > rest {
            more(counts[n - 1])
        } else {
            rest
        }
    }
}

/// A count plus one.
pub open spec fn more(count: u64) -> int {
    if count == u64::MAX {
        count as int
    } else {
        count + 1
    }
}

/// Counts scaled to 1 to 255; each counts one more than it was seen.
pub open spec fn normalized(counts: Seq<u64>) -> Seq<u8> {
    Seq::new(
        counts.len(),
        |i: int|
            {
                let share = more(counts[i]) * 255 / largest(counts, counts.len());
                if share < 1 {
                    1u8
                } else {
                    share as u8
                }
            },
    )
}

proof fn lemma_largest(counts: Seq<u64>, n: nat, i: int)
    requires
        0 <= i < n <= counts.len(),
    ensures
        more(counts[i]) <= largest(counts, n),
        1 <= largest(counts, n) <= u64::MAX,
    decreases n,
{
    assert(largest(counts, 0) == 1);
    if n > 1 {
        if i < n - 1 {
            lemma_largest(counts, (n - 1) as nat, i);
        } else {
            lemma_largest(counts, (n - 1) as nat, 0);
        }
    }
}

/// Appends scaled counts.
fn append_normalized_with_pseudocount(output: &mut Vec<u8>, counts: &Vec<u64>)
    ensures
        final(output)@ == old(output)@ + normalized(counts@),
{
    let mut maximum: u64 = 1;
    let mut i: usize = 0;
    while i < counts.len()
        invariant
            i <= counts@.len(),
            maximum == largest(counts@, i as nat),
            1 <= maximum,
        decreases counts@.len() - i,
    {
        let count: u64 = counts[i].saturating_add(1);
        if count > maximum {
            maximum = count;
        }
        i += 1;
    }
    let mut i: usize = 0;
    assert(output@ =~= old(output)@ + normalized(counts@).take(0));
    while i < counts.len()
        invariant
            i <= counts@.len(),
            maximum == largest(counts@, counts@.len()),
            1 <= maximum,
            output@ == old(output)@ + normalized(counts@).take(i as int),
        decreases counts@.len() - i,
    {
        let count: u64 = counts[i].saturating_add(1);
        proof {
            lemma_largest(counts@, counts@.len(), i as int);
            assert(count * 255 / maximum as int <= 255) by (nonlinear_arith)
                requires
                    0 <= count <= maximum,
                    maximum >= 1,
            ;
        }
        let share: u128 = count as u128 * 255 / maximum as u128;
        output.push(
            if share < 1 {
                1
            } else {
                share as u8
            },
        );
        i += 1;
        assert(output@ =~= old(output)@ + normalized(counts@).take(i as int));
    }
    assert(normalized(counts@).take(i as int) =~= normalized(counts@));
}

/// The scaled tables of a context, the first `n` of them.
pub open spec fn normalized_tables(tables: Seq<Seq<u64>>, n: nat) -> Seq<u8>
    decreases n,
{
    if n == 0 {
        seq![]
    } else {
        normalized_tables(tables, (n - 1) as nat) + normalized(tables[n - 1])
    }
}

/// The scaled tables of all contexts, the first `n` of them.
pub open spec fn normalized_contexts(offsets: Seq<Seq<Seq<u64>>>, n: nat) -> Seq<u8>
    decreases n,
{
    if n == 0 {
        seq![]
    } else {
        normalized_contexts(offsets, (n - 1) as nat) + normalized_tables(
            offsets[n - 1],
            offsets[n - 1].len(),
        )
    }
}

/// The scaled counts of all symbols.
pub open spec fn normalized_counts(counts: Counts) -> Seq<u8> {
    normalized(counts.top) + normalized_contexts(counts.offsets, counts.offsets.len())
}

/// The occurrences of the symbols of a common buffer.
#[derive(Debug)]
pub struct CommonFrequencies {
    pub counts: DzFrequencyCounts,
}

impl CommonFrequencies {
    /// Counters at zero.
    pub fn new(settings: RangeSettings) -> (frequencies: CommonFrequencies)
        requires
            settings.valid(),
        ensures
            frequencies.counts.fits(settings, TOP_SYMBOLS as nat),
            frequencies.counts.counts() == no_counts(settings, false),
    {
        CommonFrequencies { counts: DzFrequencyCounts::new(settings, false) }
    }

    /// Counts a symbol of the top alphabet.
    pub fn record_top(&mut self, symbol: usize) -> (result: Result<(), DzFault>)
        ensures
            final(self).counts.offsets == old(self).counts.offsets,
            final(self).counts.offset_bits == old(self).counts.offset_bits,
            if symbol < old(self).counts.top@.len() {
                result is Ok && final(self).counts.top@ == bumped(
                    old(self).counts.top@,
                    symbol as int,
                )
            } else {
                result == Err::<(), DzFault>(DzFault::CommonAnalysisToken { symbol })
            },
    {
        if self.counts.count_top(symbol) {
            Ok(())
        } else {
            Err(DzFault::CommonAnalysisToken { symbol })
        }
    }

    /// Counts a distance code.
    pub fn record_grouped(&mut self, context: usize, bits: u8, value: usize) -> (result: Result<
        (),
        DzFault,
    >)
        requires
            1 <= bits <= 15,
        ensures
            final(self).counts.top == old(self).counts.top,
            final(self).counts.offset_bits == old(self).counts.offset_bits,
            final(self).counts.offsets@.len() == old(self).counts.offsets@.len(),
            (result is Ok) == (context < old(self).counts.offsets@.len() && count_digits(
                tables_of(old(self).counts.offsets@[context as int]@),
                bits,
                0,
                value as int,
            ) is Some),
            result matches Err(fault) ==> fault == DzFault::CommonAnalysisGroup,
            forall|c: int|
                0 <= c < final(self).counts.offsets@.len() && c != context
                    ==> #[trigger] final(self).counts.offsets@[c] == old(self).counts.offsets@[c],
            result is Ok ==> {
                &&& final(self).counts.offsets@[context as int]@.len() == old(
                    self,
                ).counts.offsets@[context as int]@.len()
                &&& count_digits(
                    tables_of(old(self).counts.offsets@[context as int]@),
                    bits,
                    0,
                    value as int,
                ) == Some(tables_of(final(self).counts.offsets@[context as int]@))
            },
    {
        if self.counts.count_offset(context, bits, value) {
            Ok(())
        } else {
            Err(DzFault::CommonAnalysisGroup)
        }
    }

    /// The tables that stand before the payload of a common buffer.
    pub fn normalized_prefix(&self) -> (prefix: Vec<u8>)
        ensures
            prefix@ == normalized_counts(self.counts.counts()),
    {
        let ghost rows = self.counts.counts().offsets;
        let mut prefix: Vec<u8> = Vec::new();
        append_normalized_with_pseudocount(&mut prefix, &self.counts.top);
        assert(prefix@ =~= normalized(self.counts.top@));
        let mut context: usize = 0;
        assert(prefix@ =~= normalized(self.counts.top@) + normalized_contexts(
            rows,
            0,
        ));
        while context < self.counts.offsets.len()
            invariant
                context <= self.counts.offsets@.len(),
                rows == self.counts.counts().offsets,
                prefix@ == normalized(self.counts.top@) + normalized_contexts(
                    rows,
                    context as nat,
                ),
            decreases self.counts.offsets@.len() - context,
        {
            let tables = &self.counts.offsets[context];
            let ghost start = prefix@;
            let mut table: usize = 0;
            assert(prefix@ =~= start + normalized_tables(tables_of(tables@), 0));
            while table < tables.len()
                invariant
                    table <= tables@.len(),
                    prefix@ == start + normalized_tables(tables_of(tables@), table as nat),
                decreases tables@.len() - table,
            {
                append_normalized_with_pseudocount(&mut prefix, &tables[table]);
                table += 1;
                assert(prefix@ =~= start + normalized_tables(tables_of(tables@), table as nat));
            }
            context += 1;
            assert(prefix@ =~= normalized(self.counts.top@) + normalized_contexts(
                rows,
                context as nat,
            ));
        }
        prefix
    }

    /// The costs by these counts.
    pub fn fixed_costs(&self) -> (costs: DzFixedCosts)
        ensures
            costs.offset_bits == self.counts.offset_bits,
            costs.top@ == symbol_costs(self.counts.top@),
            all_costs(costs.offsets@, self.counts.offsets@),
    {
        self.counts.into_costs()
    }
}

} // verus!
