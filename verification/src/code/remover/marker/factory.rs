//! Picks the way of removing a directive.
use crate::code::remover::marker::availability::MarkerAvailability;
use crate::code::remover::marker::builder::{range_fits, MarkerBuilder, RemovableRange};
use crate::parser::node_tokens_fit;
use crate::parser::{Element, NodeView};
use vstd::prelude::*;

verus! {

/// The ways of removing a directive, each with the test that says when it
/// applies, in the order in which they are tried.
pub type RemoveStrategies = Vec<(Box<dyn MarkerAvailability>, Box<dyn MarkerBuilder>)>;

/// What the first of `strategies` that applies to `element` gives for it.
pub open spec fn spec_create(
    strategies: Seq<(Box<dyn MarkerAvailability>, Box<dyn MarkerBuilder>)>,
    element: NodeView,
) -> Option<RemovableRange>
    decreases strategies.len(),
{
    if strategies.len() == 0 {
        None
    } else if strategies[0].0.available(element) {
        Some(strategies[0].1.built(element))
    } else {
        spec_create(strategies.drop_first(), element)
    }
}

/// True when every builder of `strategies` was made for the text `source`.
pub open spec fn strategies_built_on(
    strategies: Seq<(Box<dyn MarkerAvailability>, Box<dyn MarkerBuilder>)>,
    source: Seq<u8>,
) -> bool {
    forall|i: int| 0 <= i < strategies.len() ==> (#[trigger] strategies[i]).1.built_on(source)
}

/// What the first strategy that applies to `element` removes for it; nothing
/// where none applies. With builders made for one text, and for a directive
/// whose tags are pieces of that text, the answer is sound.
pub fn create(element: &Element, remove_strategy_map: &RemoveStrategies) -> (range: Option<RemovableRange>)
    ensures
        range == spec_create(remove_strategy_map@, element@),
        forall|source: Seq<u8>|
            #![trigger strategies_built_on(remove_strategy_map@, source)]
            strategies_built_on(remove_strategy_map@, source) && node_tokens_fit(source, element@)
                && range is Some ==> range_fits(source, element@, range->0),
{
    let ghost all = remove_strategy_map@;
    let mut i: usize = 0;
    assert(all.subrange(0, all.len() as int) =~= all);
    while i < remove_strategy_map.len()
        invariant
            i <= remove_strategy_map.len(),
            all == remove_strategy_map@,
            spec_create(all, element@) == spec_create(all.subrange(i as int, all.len() as int), element@),
        decreases remove_strategy_map.len() - i,
    {
        let ghost rest = all.subrange(i as int, all.len() as int);
        assert(rest[0] == all[i as int]);
        if remove_strategy_map[i].0.is_available(element) {
            let range = remove_strategy_map[i].1.build(element);
            assert forall|source: Seq<u8>|
                #![trigger strategies_built_on(remove_strategy_map@, source)]
                strategies_built_on(remove_strategy_map@, source) && node_tokens_fit(
                    source,
                    element@,
                ) implies range_fits(source, element@, range) by {
                assert(all[i as int].1.built_on(source));
            }
            return Some(range);
        }
        assert(rest.drop_first() =~= all.subrange(i + 1, all.len() as int));
        i += 1;
    }
    None
}

} // verus!
