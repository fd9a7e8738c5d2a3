//! The sets of models that chunks and common buffers use.

use vstd::arithmetic::power2::pow2;
use vstd::prelude::*;

use crate::codecs::dz::coder::{recorded, uniform, Model};
use crate::codecs::dz::fault::DzFault;
use crate::codecs::dz::range::AdaptiveModel;
use crate::codecs::dz::settings::{table_symbols, RangeSettings, TOP_SYMBOLS};
use crate::codecs::dz::stream::{
    chunk_links, chunk_tables, recorded_context, recorded_tables, table_start, uniform_context,
    uniform_offsets, uniform_tables, Links, Tables,
};

verus! {

/// The models behind a list of them.
pub open spec fn models_of(models: Seq<AdaptiveModel>) -> Seq<Model> {
    Seq::new(models.len(), |i: int| models[i]@)
}

/// The models behind a list of lists of them.
pub open spec fn offsets_of(offsets: Seq<Vec<AdaptiveModel>>) -> Seq<Seq<Model>> {
    Seq::new(offsets.len(), |i: int| models_of(offsets[i]@))
}

/// Distance models in which every symbol has frequency one.
fn uniform_offset_models(settings: RangeSettings) -> (result: Result<
    Vec<Vec<AdaptiveModel>>,
    DzFault,
>)
    requires
        settings.valid(),
    ensures
        result matches Ok(offsets) && offsets_of(offsets@) == uniform_offsets(settings),
{
    let symbols: usize = table_symbols(settings.offset_table_size);
    let mut offsets: Vec<Vec<AdaptiveModel>> = Vec::with_capacity(
        settings.offset_contexts as usize,
    );
    let mut context: u8 = 0;
    while context < settings.offset_contexts
        invariant
            context <= settings.offset_contexts,
            symbols == pow2(settings.offset_table_size as nat),
            1 <= symbols <= 0x8000,
            offsets_of(offsets@) == uniform_offsets(settings).take(context as int),
        decreases settings.offset_contexts - context,
    {
        let mut models: Vec<AdaptiveModel> = Vec::with_capacity(settings.offset_tables as usize);
        let mut table: u8 = 0;
        while table < settings.offset_tables
            invariant
                table <= settings.offset_tables,
                symbols == pow2(settings.offset_table_size as nat),
                1 <= symbols <= 0x8000,
                models_of(models@) == uniform_context(settings).take(table as int),
            decreases settings.offset_tables - table,
        {
            let ghost before = models@;
            match AdaptiveModel::new_with_increment(symbols, 32 + 4 * table as u16) {
                Ok(model) => {
                    models.push(model);
                },
                Err(fault) => return Err(fault),
            }
            table += 1;
            assert(models_of(models@) =~= uniform_context(settings).take(table as int)) by {
                assert(models_of(before) =~= models_of(models@).take(table - 1));
            }
        }
        assert(models_of(models@) =~= uniform_context(settings));
        let ghost before = offsets@;
        offsets.push(models);
        context += 1;
        assert(offsets_of(offsets@) =~= uniform_offsets(settings).take(context as int)) by {
            assert(offsets_of(before) =~= offsets_of(offsets@).take(context - 1));
        }
    }
    assert(offsets_of(offsets@) =~= uniform_offsets(settings));
    Ok(offsets)
}

/// `count` models in which every symbol has frequency one.
fn uniform_models(count: u8, symbols: usize) -> (result: Result<Vec<AdaptiveModel>, DzFault>)
    requires
        1 <= symbols <= 0x8000,
    ensures
        result matches Ok(models) && models_of(models@) == Seq::new(
            count as nat,
            |i: int| uniform(symbols as nat, 32),
        ),
{
    let ghost all = Seq::new(count as nat, |i: int| uniform(symbols as nat, 32));
    let mut models: Vec<AdaptiveModel> = Vec::with_capacity(count as usize);
    let mut table: u8 = 0;
    while table < count
        invariant
            table <= count,
            1 <= symbols <= 0x8000,
            all == Seq::new(count as nat, |i: int| uniform(symbols as nat, 32)),
            models_of(models@) == all.take(table as int),
        decreases count - table,
    {
        let ghost before = models@;
        match AdaptiveModel::new_with_increment(symbols, 32) {
            Ok(model) => {
                models.push(model);
            },
            Err(fault) => return Err(fault),
        }
        table += 1;
        assert(models_of(models@) =~= all.take(table as int)) by {
            assert(models_of(before) =~= models_of(models@).take(table - 1));
        }
    }
    assert(models_of(models@) =~= all);
    Ok(models)
}

/// The models of literals and local matches.
#[derive(Debug)]
pub struct CommonModels {
    pub top: AdaptiveModel,
    pub offsets: Vec<Vec<AdaptiveModel>>,
}

impl View for CommonModels {
    type V = Tables;

    open spec fn view(&self) -> Tables {
        Tables { top: self.top@, offsets: offsets_of(self.offsets@) }
    }
}

impl CommonModels {
    /// Models in which every symbol has frequency one.
    pub fn uniform(settings: RangeSettings) -> (result: Result<CommonModels, DzFault>)
        requires
            settings.valid(),
        ensures
            result matches Ok(models) && models@ == uniform_tables(settings),
    {
        let offsets = match uniform_offset_models(settings) {
            Ok(offsets) => offsets,
            Err(fault) => return Err(fault),
        };
        match AdaptiveModel::new(TOP_SYMBOLS) {
            Ok(top) => Ok(CommonModels { top, offsets }),
            Err(fault) => Err(fault),
        }
    }

    /// Models of recorded frequencies.
    pub fn from_static_prefix(prefix: &[u8], settings: RangeSettings) -> (result: Result<
        CommonModels,
        DzFault,
    >)
        requires
            settings.valid(),
            settings.has_static_tables(),
        ensures
            match result {
                Ok(models) => prefix@.len() >= settings.prefix_size() && models@
                    == recorded_tables(prefix@, settings),
                Err(fault) => prefix@.len() < settings.prefix_size() && fault == (
                DzFault::StaticTableSize {
                    size: prefix@.len() as usize,
                    expected: settings.prefix_size() as usize,
                }),
            },
    {
        let symbols: usize = table_symbols(settings.offset_table_size);
        let expected: usize = settings.combuf_static_prefix_size();
        if prefix.len() < expected {
            return Err(DzFault::StaticTableSize { size: prefix.len(), expected });
        }
        let ghost contexts = settings.offset_contexts as int;
        let ghost tables = settings.offset_tables as int;
        proof {
            assert(contexts * tables * symbols >= 0) by (nonlinear_arith)
                requires
                    contexts >= 0,
                    tables >= 0,
                    symbols >= 0,
            ;
        }
        let top = match AdaptiveModel::from_normalized(
            vstd::slice::slice_subrange(prefix, 0, TOP_SYMBOLS),
        ) {
            Ok(top) => top,
            Err(fault) => return Err(fault),
        };
        let ghost model_tables = recorded_tables(prefix@, settings);
        assert(prefix@.subrange(0, TOP_SYMBOLS as int) =~= prefix@.take(TOP_SYMBOLS as int));
        let mut cursor: usize = TOP_SYMBOLS;
        let mut offsets: Vec<Vec<AdaptiveModel>> = Vec::with_capacity(
            settings.offset_contexts as usize,
        );
        let mut context: u8 = 0;
        assert(table_start(settings, 0, 0) == TOP_SYMBOLS) by {
            assert((0 * tables + 0) * symbols == 0) by (nonlinear_arith);
        }
        while context < settings.offset_contexts
            invariant
                settings.valid(),
                context <= settings.offset_contexts,
                symbols == pow2(settings.offset_table_size as nat),
                1 <= symbols <= 0x8000,
                contexts == settings.offset_contexts,
                tables == settings.offset_tables,
                prefix@.len() >= TOP_SYMBOLS + contexts * tables * symbols,
                cursor == table_start(settings, context as int, 0),
                model_tables == recorded_tables(prefix@, settings),
                offsets_of(offsets@) == model_tables.offsets.take(context as int),
            decreases settings.offset_contexts - context,
        {
            let mut models: Vec<AdaptiveModel> = Vec::with_capacity(
                settings.offset_tables as usize,
            );
            let mut table: u8 = 0;
            let ghost row = recorded_context(prefix@, settings, context as int);
            while table < settings.offset_tables
                invariant
                    settings.valid(),
                    context < settings.offset_contexts,
                    table <= settings.offset_tables,
                    symbols == pow2(settings.offset_table_size as nat),
                    1 <= symbols <= 0x8000,
                    contexts == settings.offset_contexts,
                    tables == settings.offset_tables,
                    prefix@.len() >= TOP_SYMBOLS + contexts * tables * symbols,
                    cursor == table_start(settings, context as int, table as int),
                    row == recorded_context(prefix@, settings, context as int),
                    models_of(models@) == row.take(table as int),
                decreases settings.offset_tables - table,
            {
                let ghost before = models@;
                proof {
                    lemma_table_end(
                        context as int,
                        table as int,
                        contexts,
                        tables,
                        symbols as int,
                    );
                }
                let size: usize = prefix.len();
                assert(cursor + symbols <= size);
                let end: usize = cursor + symbols;
                match AdaptiveModel::from_normalized_with_increment(
                    vstd::slice::slice_subrange(prefix, cursor, end),
                    32 + 4 * table as u16,
                ) {
                    Ok(model) => {
                        models.push(model);
                    },
                    Err(fault) => return Err(fault),
                }
                cursor = end;
                table += 1;
                assert(models_of(models@) =~= row.take(table as int)) by {
                    assert(models_of(before) =~= models_of(models@).take(table - 1));
                    assert(models_of(models@)[table - 1] == row[table - 1]);
                }
            }
            assert(models_of(models@) =~= row);
            let ghost before = offsets@;
            offsets.push(models);
            context += 1;
            proof {
                assert(context * tables + 0 == (context - 1) * tables + tables)
                    by (nonlinear_arith);
                assert(offsets_of(offsets@) =~= model_tables.offsets.take(context as int)) by {
                    assert(offsets_of(before) =~= offsets_of(offsets@).take(context - 1));
                }
            }
        }
        assert(offsets_of(offsets@) =~= model_tables.offsets);
        Ok(CommonModels { top, offsets })
    }

    /// Models with the same frequencies.
    pub fn duplicate(&self) -> (models: CommonModels)
        ensures
            models@ == self@,
    {
        let mut offsets: Vec<Vec<AdaptiveModel>> = Vec::with_capacity(self.offsets.len());
        let mut context: usize = 0;
        while context < self.offsets.len()
            invariant
                context <= self.offsets@.len(),
                offsets_of(offsets@) == offsets_of(self.offsets@).take(context as int),
            decreases self.offsets@.len() - context,
        {
            let source = &self.offsets[context];
            let mut models: Vec<AdaptiveModel> = Vec::with_capacity(source.len());
            let mut table: usize = 0;
            while table < source.len()
                invariant
                    table <= source@.len(),
                    models_of(models@) == models_of(source@).take(table as int),
                decreases source@.len() - table,
            {
                let ghost before = models@;
                models.push(source[table].duplicate());
                table += 1;
                assert(models_of(models@) =~= models_of(source@).take(table as int)) by {
                    assert(models_of(before) =~= models_of(models@).take(table - 1));
                }
            }
            assert(models_of(models@) =~= models_of(source@));
            let ghost before = offsets@;
            offsets.push(models);
            context += 1;
            assert(offsets_of(offsets@) =~= offsets_of(self.offsets@).take(context as int)) by {
                assert(offsets_of(before) =~= offsets_of(offsets@).take(context - 1));
            }
        }
        assert(offsets_of(offsets@) =~= offsets_of(self.offsets@));
        CommonModels { top: self.top.duplicate(), offsets }
    }
}

pub proof fn lemma_table_end(context: int, table: int, contexts: int, tables: int, symbols: int)
    requires
        0 <= context < contexts,
        0 <= table < tables,
        symbols >= 0,
    ensures
        (context * tables + table + 1) * symbols == (context * tables + table) * symbols + symbols,
        (context * tables + table + 1) * symbols <= contexts * tables * symbols,
{
    assert(context * tables + table + 1 <= contexts * tables) by (nonlinear_arith)
        requires
            0 <= context < contexts,
            0 <= table < tables,
    ;
    let a = context * tables + table;
    assert((a + 1) * symbols == a * symbols + symbols) by (nonlinear_arith);
    assert((a + 1) * symbols <= (contexts * tables) * symbols) by (nonlinear_arith)
        requires
            a + 1 <= contexts * tables,
            symbols >= 0,
    ;
}

/// The models of a chunk.
#[derive(Debug)]
pub struct DzModels {
    pub common: CommonModels,
    pub reference_lengths: Vec<AdaptiveModel>,
    pub reference_offsets: Vec<AdaptiveModel>,
    pub reference_sign: AdaptiveModel,
    pub reference_base: AdaptiveModel,
    pub reference_bases: [i64; 8],
}

impl DzModels {
    /// The models of references.
    pub open spec fn links(&self) -> Links {
        Links {
            lengths: models_of(self.reference_lengths@),
            spots: models_of(self.reference_offsets@),
            sign: self.reference_sign@,
            base: self.reference_base@,
            bases: self.reference_bases@,
        }
    }

    /// The models a chunk begins with.
    pub fn new(settings: RangeSettings, has_combuf: bool) -> (result: Result<DzModels, DzFault>)
        requires
            settings.valid(),
        ensures
            result matches Ok(models) && {
                &&& models.common@ == chunk_tables(settings, has_combuf)
                &&& models.links() == chunk_links(settings)
            },
    {
        let length_symbols: usize = table_symbols(settings.ref_length_table_size);
        let offset_symbols: usize = table_symbols(settings.ref_offset_table_size);
        let top_symbols: usize = if has_combuf {
            TOP_SYMBOLS + length_symbols
        } else {
            TOP_SYMBOLS
        };
        let offsets = match uniform_offset_models(settings) {
            Ok(offsets) => offsets,
            Err(fault) => return Err(fault),
        };
        let reference_lengths = match uniform_models(settings.ref_length_tables, length_symbols) {
            Ok(models) => models,
            Err(fault) => return Err(fault),
        };
        let reference_offsets = match uniform_models(settings.ref_offset_tables, offset_symbols) {
            Ok(models) => models,
            Err(fault) => return Err(fault),
        };
        let top = match AdaptiveModel::new(top_symbols) {
            Ok(model) => model,
            Err(fault) => return Err(fault),
        };
        let reference_sign = match AdaptiveModel::new(2) {
            Ok(model) => model,
            Err(fault) => return Err(fault),
        };
        let reference_base = match AdaptiveModel::new(8) {
            Ok(model) => model,
            Err(fault) => return Err(fault),
        };
        let models = DzModels {
            common: CommonModels { top, offsets },
            reference_lengths,
            reference_offsets,
            reference_sign,
            reference_base,
            reference_bases: [0;8],
        };
        proof {
            assert(models.links().lengths =~= chunk_links(settings).lengths);
            assert(models.links().spots =~= chunk_links(settings).spots);
            assert(models.links().bases =~= chunk_links(settings).bases);
        }
        Ok(models)
    }
}

} // verus!
