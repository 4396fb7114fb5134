//! What becomes of the bands when one is added or deleted.
use vstd::prelude::*;

use crate::crossover::{MAX_BANDS, MAX_CROSSOVERS};
use crate::params::{
    add_band_edits, band_of, default_xovers, delete_band_edits, edited_by, in_range, law_add_band_inserts,
    law_band_contains_frequency, law_delete_band_removes, removed_crossover, Layout,
    MbTransientParams, MAX_CROSSOVER_HZ, MAX_SHAPE, MIN_CROSSOVER_HZ, MIN_SHAPE,
};
use crate::scalar::{exact, lemma_whole, ordered, Number};

verus! {

/// `freq` lies in the band `k`, when `xs` separate the bands: not below any crossover under the
/// band, and below the one above it, if there is one.
pub open spec fn lies_in<S: Number>(xs: Seq<S>, freq: S, k: int) -> bool {
    &&& 0 <= k <= xs.len()
    &&& forall|j: int| 0 <= j < k ==> !freq.below(#[trigger] xs[j])
    &&& k < xs.len() ==> freq.below(xs[k])
}

/// Every frequency lies in one band, and that is the one that is found for it.
pub proof fn law_every_frequency_has_its_band<S: Number>(xs: Seq<S>, freq: S, k: int)
    ensures
        lies_in(xs, freq, k) <==> k == band_of(xs, freq),
{
    law_band_contains_frequency(xs, freq);
    let b = band_of(xs, freq);
    if lies_in(xs, freq, k) {
        if k < b {
            assert(!freq.below(xs[k]));
        }
        if b < k {
            assert(!freq.below(xs[b]));
        }
    }
}

/// Deleting a band takes its upper edge away and merges it with the band above, which takes over its
/// shape; the last band has no upper edge, so it loses its lower one and is merged with the band
/// below, and its own shape goes. No other crossover and no other shape in use changes.
pub proof fn law_deleting_takes_an_edge_of_the_band<S: Number>(layout: Layout<S>, freq: S, k: int)
    requires
        layout.wf(),
        layout.bands > 2,
        lies_in(layout.used_crossovers(), freq, k),
    ensures
        ({
            let after = edited_by(layout, delete_band_edits(layout, freq));
            &&& after.bands == layout.bands - 1
            &&& k < layout.bands - 1 ==> {
                &&& after.used_crossovers() == layout.used_crossovers().remove(k)
                &&& after.used_shapes() == layout.used_shapes().remove(k + 1)
            }
            &&& k == layout.bands - 1 ==> {
                &&& after.used_crossovers() == layout.used_crossovers().drop_last()
                &&& after.used_shapes() == layout.used_shapes().drop_last()
            }
        }),
{
    law_every_frequency_has_its_band(layout.used_crossovers(), freq, k);
    law_delete_band_removes(layout, freq);
    let (xs, ps) = (layout.used_crossovers(), layout.used_shapes());
    if k == layout.bands - 1 {
        assert(removed_crossover(layout, freq) == layout.bands - 2);
        assert(xs.remove(layout.bands - 2) =~= xs.drop_last());
        assert(ps.remove(layout.bands - 1) =~= ps.drop_last());
    } else {
        assert(removed_crossover(layout, freq) == k);
    }
}

/// Adding a band puts a crossover at the frequency into the band that it lies in, and both halves
/// have its shape. No other crossover and no other shape in use changes.
pub proof fn law_adding_splits_the_band<S: Number>(layout: Layout<S>, freq: S, k: int)
    requires
        layout.wf(),
        layout.bands < 6,
        lies_in(layout.used_crossovers(), freq, k),
    ensures
        ({
            let after = edited_by(layout, add_band_edits(layout, freq));
            &&& after.bands == layout.bands + 1
            &&& after.used_crossovers() == layout.used_crossovers().insert(k, freq)
            &&& after.used_shapes() == layout.used_shapes().insert(k, layout.used_shapes()[k])
        }),
{
    law_every_frequency_has_its_band(layout.used_crossovers(), freq, k);
    law_add_band_inserts(layout, freq);
    let after = edited_by(layout, add_band_edits(layout, freq));
    let (xs, ps) = (layout.used_crossovers(), layout.used_shapes());
    assert(after.used_crossovers() =~= xs.insert(k, freq));
    assert(after.used_shapes() =~= ps.insert(k, ps[k]));
}

/// There are always two to six bands: with six, none is added, and with two, none is deleted.
pub proof fn law_the_bands_stay_in_range<S: Number>(layout: Layout<S>, freq: S)
    requires
        layout.wf(),
    ensures
        2 <= layout.bands <= 6,
        layout.bands == 6 ==> edited_by(layout, add_band_edits(layout, freq)) == layout,
        layout.bands == 2 ==> edited_by(layout, delete_band_edits(layout, freq)) == layout,
        2 <= edited_by(layout, add_band_edits(layout, freq)).bands <= 6,
        2 <= edited_by(layout, delete_band_edits(layout, freq)).bands <= 6,
{
    if layout.bands < MAX_BANDS {
        law_add_band_inserts(layout, freq);
    }
    if layout.bands > 2 {
        law_delete_band_removes(layout, freq);
    }
}

/// The crossovers start at 150 Hz, 1.5, 8, 12 and 16 kHz, in this order, if the arithmetic does not
/// round.
pub proof fn law_crossovers_start_in_order<S: Number>()
    requires
        exact::<S>(),
    ensures
        default_xovers::<S>().len() == MAX_CROSSOVERS,
        default_xovers::<S>()[0].value() == 150 as real,
        default_xovers::<S>()[1].value() == 1500 as real,
        default_xovers::<S>()[2].value() == 8000 as real,
        default_xovers::<S>()[3].value() == 12000 as real,
        default_xovers::<S>()[4].value() == 16000 as real,
        forall|i: int, j: int|
            0 <= i < j < MAX_CROSSOVERS ==> (#[trigger] default_xovers::<S>()[i]).value() < (
            #[trigger] default_xovers::<S>()[j]).value(),
{
    let xs = default_xovers::<S>();
    lemma_whole::<S>(150);
    lemma_whole::<S>(1500);
    lemma_whole::<S>(8000);
    lemma_whole::<S>(12000);
    lemma_whole::<S>(16000);
    assert forall|i: int, j: int| 0 <= i < j < MAX_CROSSOVERS implies (#[trigger] xs[i]).value() < (
    #[trigger] xs[j]).value() by {
        assert(xs[i] == xs[0] || xs[i] == xs[1] || xs[i] == xs[2] || xs[i] == xs[3]);
    }
}

/// Between two bands there is one crossover: those in use are the first ones, one fewer than there
/// are bands, and each band has a shape.
pub proof fn law_crossovers_lie_between_bands<S: Number>(layout: Layout<S>, i: int)
    requires
        layout.wf(),
    ensures
        layout.used_crossovers().len() == layout.bands - 1,
        layout.used_shapes().len() == layout.bands,
        0 <= i < layout.bands - 1 ==> layout.used_crossovers()[i] == layout.crossovers[i],
        0 <= i < layout.bands ==> layout.used_shapes()[i] == layout.shapes[i],
{
}

/// Every parameter stands in the slot that it is named after.
pub proof fn law_parameters_stand_in_their_slots<S: Number>(params: &MbTransientParams<S>)
    ensures
        params@.bands == params.num_bands,
        params@.crossovers[0] == params.crossover_1,
        params@.crossovers[1] == params.crossover_2,
        params@.crossovers[2] == params.crossover_3,
        params@.crossovers[3] == params.crossover_4,
        params@.crossovers[4] == params.crossover_5,
        params@.shapes[0] == params.band_0,
        params@.shapes[1] == params.band_1,
        params@.shapes[2] == params.band_2,
        params@.shapes[3] == params.band_3,
        params@.shapes[4] == params.band_4,
        params@.shapes[5] == params.band_5,
        params@.speed == params.speed,
        params@.output == params.output,
{
}

/// In their ranges there are two to six bands, the crossovers lie from 20 Hz to 20 kHz, the shapes
/// from -1 to 1, the speed from 2 to 200 ms and the level from -30 to 6 dB, if the arithmetic does
/// not round.
pub proof fn law_parameters_lie_in_their_ranges<S: Number>(layout: Layout<S>, i: int)
    requires
        exact::<S>(),
        ordered::<S>(),
        layout.wf(),
    ensures
        layout.in_ranges() ==> {
            &&& 2 <= layout.bands <= 6
            &&& 0 <= i < 5 ==> 20 as real <= layout.crossovers[i].value() <= 20000 as real
            &&& 0 <= i < 6 ==> -(1 as real) <= layout.shapes[i].value() <= 1 as real
            &&& 2 as real <= layout.speed.value() <= 200 as real
            &&& -(30 as real) <= layout.output.value() <= 6 as real
        },
        (forall|k: int|
            0 <= k < 5 ==> 20 as real <= (#[trigger] layout.crossovers[k]).value() <= 20000 as real) && (
        forall|k: int|
            0 <= k < 6 ==> -(1 as real) <= (#[trigger] layout.shapes[k]).value() <= 1 as real)
            && 2 as real <= layout.speed.value() <= 200 as real && -(30 as real)
            <= layout.output.value() <= 6 as real ==> layout.in_ranges(),
{
    lemma_whole::<S>(20);
    lemma_whole::<S>(20000);
    lemma_whole::<S>(-1);
    lemma_whole::<S>(1);
    lemma_whole::<S>(2);
    lemma_whole::<S>(200);
    lemma_whole::<S>(-30);
    lemma_whole::<S>(6);
    if layout.in_ranges() {
        assert(0 <= i < 5 ==> in_range(layout.crossovers[i], MIN_CROSSOVER_HZ, MAX_CROSSOVER_HZ));
        assert(0 <= i < 6 ==> in_range(layout.shapes[i], MIN_SHAPE, MAX_SHAPE));
    }
}

} // verus!
