//! Lists of symbols in one stream.

use vstd::prelude::*;

use crate::codecs::dz::coder::{
    end_position, finished, first_sender, first_taker, fits, get_symbol, lemma_finished_fits,
    lemma_put_symbol, lemma_symbol_read_back, put_symbol, taker_of, Model, Sender, Taker,
};
use crate::codecs::dz::fault::DzFault;

verus! {

/// Encodes symbols one after another with one model, from number `i` on.
pub open spec fn put_symbols(sender: Sender, model: Model, symbols: Seq<int>, i: int) -> Result<
    (Sender, Model),
    DzFault,
>
    decreases symbols.len() - i,
{
    if i >= symbols.len() {
        Ok((sender, model))
    } else {
        match put_symbol(sender, model, symbols[i]) {
            Err(fault) => Err(fault),
            Ok((next, after)) => put_symbols(next, after, symbols, i + 1),
        }
    }
}

/// Decodes `count` symbols one after another with one model, behind those that are known.
pub open spec fn get_symbols(
    data: Seq<u8>,
    taker: Taker,
    model: Model,
    count: nat,
    known: Seq<int>,
) -> Result<(Seq<int>, Taker, Model), DzFault>
    decreases count,
{
    if count == 0 {
        Ok((known, taker, model))
    } else {
        match get_symbol(data, taker, model) {
            Err(fault) => Err(fault),
            Ok((symbol, next, after)) => get_symbols(
                data,
                next,
                after,
                (count - 1) as nat,
                known.push(symbol),
            ),
        }
    }
}

/// An updated model has as many symbols as before.
proof fn lemma_updated_size(model: Model, symbol: int)
    requires
        0 <= symbol < model.frequencies.len(),
    ensures
        model.updated(symbol).frequencies.len() == model.frequencies.len(),
{
}

/// Symbols that were put are got, in their order.
proof fn lemma_symbols_read_on(
    data: Seq<u8>,
    sender: Sender,
    model: Model,
    symbols: Seq<int>,
    i: int,
)
    requires
        0 <= i <= symbols.len(),
        sender.span.sound(),
        sender.span.settled(),
        forall|k: int|
            0 <= k < symbols.len() ==> 0 <= #[trigger] symbols[k] < model.frequencies.len(),
        put_symbols(sender, model, symbols, i) is Ok,
        fits(data, put_symbols(sender, model, symbols, i)->Ok_0.0),
    ensures
        fits(data, sender),
        put_symbols(sender, model, symbols, i)->Ok_0.0.span.sound(),
        put_symbols(sender, model, symbols, i)->Ok_0.0.span.settled(),
        ({
            let (last, after) = put_symbols(sender, model, symbols, i)->Ok_0;
            get_symbols(
                data,
                taker_of(sender),
                model,
                (symbols.len() - i) as nat,
                symbols.take(i),
            ) == Ok::<(Seq<int>, Taker, Model), DzFault>((symbols, taker_of(last), after))
        }),
    decreases symbols.len() - i,
{
    if i < symbols.len() {
        lemma_put_symbol(sender, model, symbols[i]);
        lemma_updated_size(model, symbols[i]);
        let (next, after) = put_symbol(sender, model, symbols[i])->Ok_0;
        lemma_symbols_read_on(data, next, after, symbols, i + 1);
        lemma_symbol_read_back(data, sender, model, symbols[i]);
        assert(symbols.take(i).push(symbols[i]) =~= symbols.take(i + 1));
    } else {
        assert(symbols.take(i) =~= symbols);
    }
}

proof fn lemma_symbols_sound(sender: Sender, model: Model, symbols: Seq<int>, i: int)
    requires
        0 <= i <= symbols.len(),
        sender.span.sound(),
        sender.span.settled(),
        forall|k: int|
            0 <= k < symbols.len() ==> 0 <= #[trigger] symbols[k] < model.frequencies.len(),
    ensures
        put_symbols(sender, model, symbols, i) matches Ok((last, _)) ==> last.span.sound()
            && last.span.settled(),
    decreases symbols.len() - i,
{
    if i < symbols.len() {
        lemma_put_symbol(sender, model, symbols[i]);
        lemma_updated_size(model, symbols[i]);
        if let Ok((next, after)) = put_symbol(sender, model, symbols[i]) {
            lemma_symbols_sound(next, after, symbols, i + 1);
        }
    }
}

/// A list of symbols is read back from its stream, whatever follows it, and the decoder then
/// knows where the stream ends.
pub proof fn lemma_symbols_round_trip(model: Model, symbols: Seq<int>, rest: Seq<u8>)
    requires
        forall|k: int|
            0 <= k < symbols.len() ==> 0 <= #[trigger] symbols[k] < model.frequencies.len(),
        put_symbols(first_sender(), model, symbols, 0) is Ok,
    ensures
        ({
            let (last, after) = put_symbols(first_sender(), model, symbols, 0)->Ok_0;
            let stream = finished(last);
            &&& get_symbols(stream + rest, first_taker(), model, symbols.len(), Seq::empty())
                == Ok::<(Seq<int>, Taker, Model), DzFault>((symbols, taker_of(last), after))
            &&& last.sent.len() + 4 <= usize::MAX ==> end_position(taker_of(last)) == stream.len()
        }),
{
    let (last, after) = put_symbols(first_sender(), model, symbols, 0)->Ok_0;
    lemma_symbols_sound(first_sender(), model, symbols, 0);
    lemma_finished_fits(last, rest);
    lemma_symbols_read_on(finished(last) + rest, first_sender(), model, symbols, 0);
    assert(symbols.take(0) =~= Seq::empty());
}

} // verus!
