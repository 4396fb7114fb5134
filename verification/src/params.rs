//! The plugin's parameters, and how bands are added and deleted.
use vstd::prelude::*;

use crate::crossover::{MAX_BANDS, MAX_CROSSOVERS};
use crate::scalar::Scalar;
#[allow(unused_imports)]
use crate::scalar::{counts_up, Number};

verus! {

/// The fewest bands that there can be.
pub const MIN_BANDS: i32 = 2;

/// The range of the crossovers, in Hz.
pub const MIN_CROSSOVER_HZ: i32 = 20;

pub const MAX_CROSSOVER_HZ: i32 = 20000;

/// The range of the shaping values.
pub const MIN_SHAPE: i32 = -1;

pub const MAX_SHAPE: i32 = 1;

/// The range of the recovery time, in milliseconds.
pub const MIN_SPEED_MS: i32 = 2;

pub const MAX_SPEED_MS: i32 = 200;

/// The range of the output trim, in dB.
pub const MIN_LEVEL_DB: i32 = -30;

pub const MAX_LEVEL_DB: i32 = 6;

/// The values of the parameters.
pub struct MbTransientParams<S> {
    pub num_bands: i32,
    pub crossover_1: S,
    pub crossover_2: S,
    pub crossover_3: S,
    pub crossover_4: S,
    pub crossover_5: S,
    pub band_0: S,
    pub band_1: S,
    pub band_2: S,
    pub band_3: S,
    pub band_4: S,
    pub band_5: S,
    pub speed: S,
    pub output: S,
}

/// What the parameters say: how many bands there are, the frequency and the shaping value in each
/// slot, the recovery time and the output trim. The first `bands - 1` frequencies and the first
/// `bands` shaping values are in use.
#[verifier::ext_equal]
pub struct Layout<S> {
    pub bands: int,
    pub crossovers: Seq<S>,
    pub shapes: Seq<S>,
    pub speed: S,
    pub output: S,
}

impl<S> Layout<S> {
    pub open spec fn wf(self) -> bool {
        &&& MIN_BANDS <= self.bands <= MAX_BANDS
        &&& self.crossovers.len() == MAX_CROSSOVERS
        &&& self.shapes.len() == MAX_BANDS
    }

    /// The frequencies that separate the bands.
    pub open spec fn used_crossovers(self) -> Seq<S> {
        self.crossovers.take(self.bands - 1)
    }

    /// The shaping values of the bands.
    pub open spec fn used_shapes(self) -> Seq<S> {
        self.shapes.take(self.bands)
    }
}

impl<S: Number> View for MbTransientParams<S> {
    type V = Layout<S>;

    open spec fn view(&self) -> Layout<S> {
        Layout {
            bands: self.num_bands as int,
            crossovers: seq![
                self.crossover_1,
                self.crossover_2,
                self.crossover_3,
                self.crossover_4,
                self.crossover_5,
            ],
            shapes: seq![
                self.band_0,
                self.band_1,
                self.band_2,
                self.band_3,
                self.band_4,
                self.band_5,
            ],
            speed: self.speed,
            output: self.output,
        }
    }
}

/// `x` lies in the range from `lo` to `hi`.
pub open spec fn in_range<S: Number>(x: S, lo: i32, hi: i32) -> bool {
    S::fraction(lo as int, 1).upto(x) && x.upto(S::fraction(hi as int, 1))
}

impl<S: Number> Layout<S> {
    /// Every parameter lies in its range.
    pub open spec fn in_ranges(self) -> bool {
        &&& MIN_BANDS <= self.bands <= MAX_BANDS
        &&& forall|i: int|
            0 <= i < MAX_CROSSOVERS ==> in_range(
                #[trigger] self.crossovers[i],
                MIN_CROSSOVER_HZ,
                MAX_CROSSOVER_HZ,
            )
        &&& forall|i: int|
            0 <= i < MAX_BANDS ==> in_range(#[trigger] self.shapes[i], MIN_SHAPE, MAX_SHAPE)
        &&& in_range(self.speed, MIN_SPEED_MS, MAX_SPEED_MS)
        &&& in_range(self.output, MIN_LEVEL_DB, MAX_LEVEL_DB)
    }
}

/// The frequencies that the crossovers start at.
pub open spec fn default_xovers<S: Number>() -> Seq<S> {
    seq![
        S::fraction(150, 1),
        S::fraction(1500, 1),
        S::fraction(8000, 1),
        S::fraction(12000, 1),
        S::fraction(16000, 1),
    ]
}

/// The frequencies that the crossovers start at.
pub fn initial_xovers<S: Scalar>() -> (r: [S; MAX_CROSSOVERS])
    ensures
        r@ == default_xovers::<S>(),
{
    let r = [
        S::ratio(150, 1),
        S::ratio(1500, 1),
        S::ratio(8000, 1),
        S::ratio(12000, 1),
        S::ratio(16000, 1),
    ];
    assert(r@ =~= default_xovers::<S>());
    r
}

impl<S: Scalar> MbTransientParams<S> {
    /// The frequency of the crossover `i`.
    pub fn crossover(&self, i: usize) -> (r: &S)
        requires
            i < MAX_CROSSOVERS,
        ensures
            *r == self@.crossovers[i as int],
    {
        if i == 0 {
            &self.crossover_1
        } else if i == 1 {
            &self.crossover_2
        } else if i == 2 {
            &self.crossover_3
        } else if i == 3 {
            &self.crossover_4
        } else {
            &self.crossover_5
        }
    }

    /// The shaping value of the band `i`.
    pub fn band(&self, i: usize) -> (r: &S)
        requires
            i < MAX_BANDS,
        ensures
            *r == self@.shapes[i as int],
    {
        if i == 0 {
            &self.band_0
        } else if i == 1 {
            &self.band_1
        } else if i == 2 {
            &self.band_2
        } else if i == 3 {
            &self.band_3
        } else if i == 4 {
            &self.band_4
        } else {
            &self.band_5
        }
    }
}

impl<S: Scalar> Default for MbTransientParams<S> {
    /// Four bands, all neutral.
    fn default() -> (r: Self)
        ensures
            r@.wf(),
            r@.bands == 4,
            r@.crossovers == default_xovers::<S>(),
            r@.shapes == Seq::new(MAX_BANDS as nat, |i: int| S::nought()),
            r.speed == S::fraction(50, 1),
            r.output == S::fraction(-6, 1),
            counts_up::<S>() ==> r@.in_ranges(),
    {
        let xovers = initial_xovers::<S>();
        let r = MbTransientParams {
            num_bands: 4,
            crossover_1: xovers[0],
            crossover_2: xovers[1],
            crossover_3: xovers[2],
            crossover_4: xovers[3],
            crossover_5: xovers[4],
            band_0: S::zero(),
            band_1: S::zero(),
            band_2: S::zero(),
            band_3: S::zero(),
            band_4: S::zero(),
            band_5: S::zero(),
            speed: S::ratio(50, 1),
            output: S::ratio(-6, 1),
        };
        assert(r@.crossovers =~= default_xovers::<S>());
        assert(r@.shapes =~= Seq::new(MAX_BANDS as nat, |i: int| S::nought()));
        r
    }
}

/// A parameter that is dragged on the spectrum.
#[derive(Clone, Copy, Debug, PartialEq, Eq, Structural)]
pub enum Target {
    Crossover(usize),
    Band(usize),
}

/// Something that the editor asks the host for.
#[derive(Clone, Copy, Debug)]
pub enum Edit<S> {
    /// A gesture on a parameter begins.
    Begin(Target),
    /// A parameter takes a value.
    Assign(Target, S),
    /// A gesture on a parameter ends.
    End(Target),
    /// There are so many bands from now on.
    SetBands(i32),
}

/// The layout after one edit.
pub open spec fn edited<S>(layout: Layout<S>, edit: Edit<S>) -> Layout<S> {
    match edit {
        Edit::Begin(_) => layout,
        Edit::Assign(Target::Crossover(i), value) => Layout {
            crossovers: layout.crossovers.update(i as int, value),
            ..layout
        },
        Edit::Assign(Target::Band(i), value) => Layout {
            shapes: layout.shapes.update(i as int, value),
            ..layout
        },
        Edit::End(_) => layout,
        Edit::SetBands(n) => Layout { bands: n as int, ..layout },
    }
}

/// The layout after the edits, in their order.
pub open spec fn edited_by<S>(layout: Layout<S>, edits: Seq<Edit<S>>) -> Layout<S>
    decreases edits.len(),
{
    if edits.len() == 0 {
        layout
    } else {
        edited(edited_by(layout, edits.drop_last()), edits.last())
    }
}

/// The first of the crossovers `xs`, from `i` on, that lies above `freq`; their number, if none
/// does.
pub open spec fn first_above<S: Number>(xs: Seq<S>, freq: S, i: int) -> int
    decreases xs.len() - i,
{
    if i >= xs.len() || freq.below(xs[i]) {
        i
    } else {
        first_above(xs, freq, i + 1)
    }
}

/// The band that contains `freq`, when `xs` separate the bands.
pub open spec fn band_of<S: Number>(xs: Seq<S>, freq: S) -> int {
    first_above(xs, freq, 0)
}

/// The band that contains `freq`.
pub fn band_index<S: Scalar>(params: &MbTransientParams<S>, freq: S, num_bands: usize) -> (r: usize)
    requires
        1 <= num_bands <= MAX_BANDS,
    ensures
        r < num_bands,
        r == band_of(params@.crossovers.take(num_bands - 1), freq),
{
    let ghost xs = params@.crossovers.take(num_bands - 1);
    for i in 0..(num_bands - 1)
        invariant
            1 <= num_bands <= MAX_BANDS,
            xs == params@.crossovers.take(num_bands - 1),
            first_above(xs, freq, 0) == first_above(xs, freq, i as int),
    {
        if freq.lt(*params.crossover(i)) {
            return i;
        }
    }
    num_bands - 1
}

/// The edits that split the band that contains `freq` into two.
pub open spec fn add_band_edits<S: Number>(layout: Layout<S>, freq: S) -> Seq<Edit<S>> {
    let n = layout.bands;
    let k = band_of(layout.used_crossovers(), freq);
    if n >= MAX_BANDS {
        Seq::empty()
    } else {
        crossovers_up(layout, (n - 1 - k) as nat).push(
            Edit::Assign(Target::Crossover(k as usize), freq),
        ) + shapes_up(layout, (n - 1 - k) as nat).push(
            Edit::Assign(Target::Band((k + 1) as usize), layout.shapes[k]),
        ).push(Edit::SetBands((n + 1) as i32))
    }
}

/// Moves the last `count` crossovers one slot up, the last one first.
pub open spec fn crossovers_up<S>(layout: Layout<S>, count: nat) -> Seq<Edit<S>> {
    let n = layout.bands;
    Seq::new(
        count,
        |t: int| Edit::Assign(Target::Crossover((n - 1 - t) as usize), layout.crossovers[n - 2 - t]),
    )
}

/// Moves the last `count` shaping values one slot up, the last one first.
pub open spec fn shapes_up<S>(layout: Layout<S>, count: nat) -> Seq<Edit<S>> {
    let n = layout.bands;
    Seq::new(
        count,
        |t: int| Edit::Assign(Target::Band((n - t) as usize), layout.shapes[n - 1 - t]),
    )
}

/// Split the band containing `freq` into two bands by inserting a crossover. There is nothing to
/// do when there are as many bands as there can be.
pub fn add_band<S: Scalar>(params: &MbTransientParams<S>, freq: S) -> (edits: Vec<Edit<S>>)
    requires
        params@.wf(),
    ensures
        edits@ == add_band_edits(params@, freq),
{
    let n: usize = params.num_bands as usize;
    let mut edits: Vec<Edit<S>> = Vec::new();
    if n >= MAX_BANDS {
        return edits;
    }
    let k: usize = band_index(params, freq, n);
    let old_shape_k: S = *params.band(k);
    // Shift crossovers at/after `k` one slot to the right.
    let mut j: usize = n - 1;
    while j > k
        invariant
            n == params@.bands,
            2 <= n < MAX_BANDS,
            k <= j <= n - 1,
            edits@ == crossovers_up(params@, (n - 1 - j) as nat),
        decreases j,
    {
        edits.push(Edit::Assign(Target::Crossover(j), *params.crossover(j - 1)));
        j = j - 1;
        assert(edits@ =~= crossovers_up(params@, (n - 1 - j) as nat));
    }
    edits.push(Edit::Assign(Target::Crossover(k), freq));
    let ghost moved = edits@;
    // Shift band shapes after `k` right, and copy band `k` into the new band.
    let mut j: usize = n;
    assert(edits@ =~= moved + shapes_up(params@, 0));
    while j > k + 1
        invariant
            n == params@.bands,
            2 <= n < MAX_BANDS,
            k + 1 <= j <= n,
            edits@ == moved + shapes_up(params@, (n - j) as nat),
        decreases j,
    {
        edits.push(Edit::Assign(Target::Band(j), *params.band(j - 1)));
        j = j - 1;
        assert(edits@ =~= moved + shapes_up(params@, (n - j) as nat));
    }
    edits.push(Edit::Assign(Target::Band(k + 1), old_shape_k));
    edits.push(Edit::SetBands((n + 1) as i32));
    assert(edits@ =~= add_band_edits(params@, freq));
    edits
}

/// Which crossover goes when the band that contains `freq` is deleted: the one above it, or the
/// last one for the last band.
pub open spec fn removed_crossover<S: Number>(layout: Layout<S>, freq: S) -> int {
    let k = band_of(layout.used_crossovers(), freq);
    if k <= layout.bands - 2 {
        k
    } else {
        layout.bands - 2
    }
}

/// The edits that merge the band that contains `freq` with its neighbour.
pub open spec fn delete_band_edits<S: Number>(layout: Layout<S>, freq: S) -> Seq<Edit<S>> {
    let n = layout.bands;
    let r = removed_crossover(layout, freq);
    if n <= 2 {
        Seq::empty()
    } else {
        crossovers_down(layout, r, (n - 2 - r) as nat) + shapes_down(
            layout,
            r,
            (n - 2 - r) as nat,
        ).push(Edit::SetBands((n - 1) as i32))
    }
}

/// Moves `count` crossovers one slot down, into the slots from `r` on.
pub open spec fn crossovers_down<S>(layout: Layout<S>, r: int, count: nat) -> Seq<Edit<S>> {
    Seq::new(
        count,
        |t: int| Edit::Assign(Target::Crossover((r + t) as usize), layout.crossovers[r + t + 1]),
    )
}

/// Moves `count` shaping values one slot down, into the slots behind `r`.
pub open spec fn shapes_down<S>(layout: Layout<S>, r: int, count: nat) -> Seq<Edit<S>> {
    Seq::new(
        count,
        |t: int| Edit::Assign(Target::Band((r + 1 + t) as usize), layout.shapes[r + 2 + t]),
    )
}

/// Merge the band containing `freq` with its neighbour by removing a crossover. There is nothing
/// to do when only two bands are left.
pub fn delete_band<S: Scalar>(params: &MbTransientParams<S>, freq: S) -> (edits: Vec<Edit<S>>)
    requires
        params@.wf(),
    ensures
        edits@ == delete_band_edits(params@, freq),
{
    let n: usize = params.num_bands as usize;
    let mut edits: Vec<Edit<S>> = Vec::new();
    if n <= 2 {
        return edits;
    }
    let k: usize = band_index(params, freq, n);
    let remove: usize = if k < n - 2 {
        k
    } else {
        n - 2
    };
    assert(edits@ =~= crossovers_down(params@, remove as int, 0));
    for j in remove..(n - 2)
        invariant
            n == params@.bands,
            2 < n <= MAX_BANDS,
            edits@ == crossovers_down(params@, remove as int, (j - remove) as nat),
    {
        edits.push(Edit::Assign(Target::Crossover(j), *params.crossover(j + 1)));
        assert(edits@ =~= crossovers_down(params@, remove as int, (j + 1 - remove) as nat));
    }
    let ghost moved = edits@;
    assert(edits@ =~= moved + shapes_down(params@, remove as int, 0));
    for j in (remove + 1)..(n - 1)
        invariant
            n == params@.bands,
            2 < n <= MAX_BANDS,
            remove + 1 <= j,
            edits@ == moved + shapes_down(params@, remove as int, (j - remove - 1) as nat),
    {
        edits.push(Edit::Assign(Target::Band(j), *params.band(j + 1)));
        assert(edits@ =~= moved + shapes_down(params@, remove as int, (j - remove) as nat));
    }
    edits.push(Edit::SetBands((n - 1) as i32));
    assert(edits@ =~= delete_band_edits(params@, freq));
    edits
}

// ---- what the edits come to ----

proof fn lemma_edits_in_turn<S>(layout: Layout<S>, a: Seq<Edit<S>>, b: Seq<Edit<S>>)
    ensures
        edited_by(layout, a + b) == edited_by(edited_by(layout, a), b),
    decreases b.len(),
{
    if b.len() == 0 {
        assert(a + b =~= a);
    } else {
        lemma_edits_in_turn(layout, a, b.drop_last());
        assert((a + b).drop_last() =~= a + b.drop_last());
    }
}

proof fn lemma_one_more_edit<S>(layout: Layout<S>, a: Seq<Edit<S>>, e: Edit<S>)
    ensures
        edited_by(layout, a.push(e)) == edited(edited_by(layout, a), e),
{
    assert(a.push(e).drop_last() =~= a);
}

proof fn lemma_crossovers_up<S>(layout: Layout<S>, count: nat)
    requires
        layout.wf(),
        layout.bands < MAX_BANDS,
        count < layout.bands,
    ensures
        edited_by(layout, crossovers_up(layout, count)) == (Layout {
            crossovers: Seq::new(
                MAX_CROSSOVERS as nat,
                |j: int|
                    if layout.bands - 1 - count < j <= layout.bands - 1 {
                        layout.crossovers[j - 1]
                    } else {
                        layout.crossovers[j]
                    },
            ),
            ..layout
        }),
    decreases count,
{
    if count > 0 {
        lemma_crossovers_up(layout, (count - 1) as nat);
        assert(crossovers_up(layout, count).drop_last() =~= crossovers_up(layout, (count - 1) as nat));
    }
}

proof fn lemma_shapes_up<S>(layout: Layout<S>, base: Layout<S>, count: nat)
    requires
        layout.wf(),
        layout.bands < MAX_BANDS,
        count < layout.bands,
        base.shapes == layout.shapes,
    ensures
        edited_by(base, shapes_up(layout, count)) == (Layout {
            shapes: Seq::new(
                MAX_BANDS as nat,
                |j: int|
                    if layout.bands - count < j <= layout.bands {
                        layout.shapes[j - 1]
                    } else {
                        layout.shapes[j]
                    },
            ),
            ..base
        }),
    decreases count,
{
    if count > 0 {
        lemma_shapes_up(layout, base, (count - 1) as nat);
        assert(shapes_up(layout, count).drop_last() =~= shapes_up(layout, (count - 1) as nat));
    }
}

proof fn lemma_crossovers_down<S>(layout: Layout<S>, r: int, count: nat)
    requires
        layout.wf(),
        0 <= r,
        r + count <= layout.bands - 2,
    ensures
        edited_by(layout, crossovers_down(layout, r, count)) == (Layout {
            crossovers: Seq::new(
                MAX_CROSSOVERS as nat,
                |j: int|
                    if r <= j < r + count {
                        layout.crossovers[j + 1]
                    } else {
                        layout.crossovers[j]
                    },
            ),
            ..layout
        }),
    decreases count,
{
    if count > 0 {
        lemma_crossovers_down(layout, r, (count - 1) as nat);
        assert(crossovers_down(layout, r, count).drop_last() =~= crossovers_down(
            layout,
            r,
            (count - 1) as nat,
        ));
    }
}

proof fn lemma_shapes_down<S>(layout: Layout<S>, base: Layout<S>, r: int, count: nat)
    requires
        layout.wf(),
        0 <= r,
        r + count <= layout.bands - 2,
        base.shapes == layout.shapes,
    ensures
        edited_by(base, shapes_down(layout, r, count)) == (Layout {
            shapes: Seq::new(
                MAX_BANDS as nat,
                |j: int|
                    if r + 1 <= j < r + 1 + count {
                        layout.shapes[j + 1]
                    } else {
                        layout.shapes[j]
                    },
            ),
            ..base
        }),
    decreases count,
{
    if count > 0 {
        lemma_shapes_down(layout, base, r, (count - 1) as nat);
        assert(shapes_down(layout, r, count).drop_last() =~= shapes_down(
            layout,
            r,
            (count - 1) as nat,
        ));
    }
}

proof fn lemma_first_above<S: Number>(xs: Seq<S>, freq: S, i: int)
    requires
        0 <= i <= xs.len(),
    ensures
        i <= first_above(xs, freq, i) <= xs.len(),
        forall|j: int| i <= j < first_above(xs, freq, i) ==> !freq.below(#[trigger] xs[j]),
        first_above(xs, freq, i) < xs.len() ==> freq.below(xs[first_above(xs, freq, i)]),
    decreases xs.len() - i,
{
    if i < xs.len() && !freq.below(xs[i]) {
        lemma_first_above(xs, freq, i + 1);
    }
}

/// The band of a frequency is one of the bands; no crossover below that band lies above the
/// frequency, and the one at its upper end does.
pub proof fn law_band_contains_frequency<S: Number>(xs: Seq<S>, freq: S)
    ensures
        0 <= band_of(xs, freq) <= xs.len(),
        forall|j: int| 0 <= j < band_of(xs, freq) ==> !freq.below(#[trigger] xs[j]),
        band_of(xs, freq) < xs.len() ==> freq.below(xs[band_of(xs, freq)]),
{
    lemma_first_above(xs, freq, 0);
}

/// Adding a band inserts the frequency above the crossovers that it does not lie below, and gives
/// the new band the shape of the one that it was cut from. Nothing else changes.
pub proof fn law_add_band_inserts<S: Number>(layout: Layout<S>, freq: S)
    requires
        layout.wf(),
        layout.bands < MAX_BANDS,
    ensures
        ({
            let k = band_of(layout.used_crossovers(), freq);
            let after = edited_by(layout, add_band_edits(layout, freq));
            &&& after.wf()
            &&& after.bands == layout.bands + 1
            &&& after.crossovers == layout.used_crossovers().insert(k, freq)
                + layout.crossovers.skip(layout.bands)
            &&& after.shapes == layout.used_shapes().insert(k + 1, layout.shapes[k])
                + layout.shapes.skip(layout.bands + 1)
            &&& after.speed == layout.speed
            &&& after.output == layout.output
        }),
{
    let n = layout.bands;
    let k = band_of(layout.used_crossovers(), freq);
    law_band_contains_frequency(layout.used_crossovers(), freq);
    let count = (n - 1 - k) as nat;
    let up = crossovers_up(layout, count);
    let put = Edit::Assign(Target::Crossover(k as usize), freq);
    let shapes = shapes_up(layout, count);
    let copy = Edit::Assign(Target::Band((k + 1) as usize), layout.shapes[k]);
    let more = Edit::<S>::SetBands((n + 1) as i32);
    lemma_crossovers_up(layout, count);
    lemma_one_more_edit(layout, up, put);
    let base = edited_by(layout, up.push(put));
    lemma_shapes_up(layout, base, count);
    lemma_one_more_edit(base, shapes, copy);
    lemma_one_more_edit(base, shapes.push(copy), more);
    lemma_edits_in_turn(layout, up.push(put), shapes.push(copy).push(more));
    let after = edited_by(layout, add_band_edits(layout, freq));
    assert(after.crossovers =~= layout.used_crossovers().insert(k, freq) + layout.crossovers.skip(n));
    assert(after.shapes =~= layout.used_shapes().insert(k + 1, layout.shapes[k])
        + layout.shapes.skip(n + 1));
}

/// Deleting a band takes one crossover away, and the shape of the band above it. Nothing else
/// changes among what is in use.
pub proof fn law_delete_band_removes<S: Number>(layout: Layout<S>, freq: S)
    requires
        layout.wf(),
        layout.bands > 2,
    ensures
        ({
            let r = removed_crossover(layout, freq);
            let after = edited_by(layout, delete_band_edits(layout, freq));
            &&& after.wf()
            &&& after.bands == layout.bands - 1
            &&& after.used_crossovers() == layout.used_crossovers().remove(r)
            &&& after.used_shapes() == layout.used_shapes().remove(r + 1)
            &&& after.crossovers.skip(layout.bands - 2) == layout.crossovers.skip(layout.bands - 2)
            &&& after.shapes.skip(layout.bands - 1) == layout.shapes.skip(layout.bands - 1)
            &&& after.speed == layout.speed
            &&& after.output == layout.output
        }),
{
    let n = layout.bands;
    let r = removed_crossover(layout, freq);
    law_band_contains_frequency(layout.used_crossovers(), freq);
    let count = (n - 2 - r) as nat;
    let down = crossovers_down(layout, r, count);
    let shapes = shapes_down(layout, r, count);
    let fewer = Edit::<S>::SetBands((n - 1) as i32);
    lemma_crossovers_down(layout, r, count);
    let base = edited_by(layout, down);
    lemma_shapes_down(layout, base, r, count);
    lemma_one_more_edit(base, shapes, fewer);
    lemma_edits_in_turn(layout, down, shapes.push(fewer));
    let after = edited_by(layout, delete_band_edits(layout, freq));
    assert(after.used_crossovers() =~= layout.used_crossovers().remove(r));
    assert(after.used_shapes() =~= layout.used_shapes().remove(r + 1));
    assert(after.crossovers.skip(n - 2) =~= layout.crossovers.skip(n - 2));
    assert(after.shapes.skip(n - 1) =~= layout.shapes.skip(n - 1));
}

/// Deleting the lower half of a band that was just split brings the old layout back: `freq` is
/// where the band was split, and `inside` any frequency that the lower half contains.
pub proof fn law_delete_undoes_add<S: Number>(layout: Layout<S>, freq: S, inside: S)
    requires
        layout.wf(),
        layout.bands < MAX_BANDS,
        ({
            let split = edited_by(layout, add_band_edits(layout, freq));
            band_of(split.used_crossovers(), inside) == band_of(layout.used_crossovers(), freq)
        }),
    ensures
        ({
            let split = edited_by(layout, add_band_edits(layout, freq));
            let merged = edited_by(split, delete_band_edits(split, inside));
            &&& merged.bands == layout.bands
            &&& merged.used_crossovers() == layout.used_crossovers()
            &&& merged.used_shapes() == layout.used_shapes()
        }),
{
    let n = layout.bands;
    let k = band_of(layout.used_crossovers(), freq);
    law_band_contains_frequency(layout.used_crossovers(), freq);
    law_add_band_inserts(layout, freq);
    let split = edited_by(layout, add_band_edits(layout, freq));
    assert(split.used_crossovers() =~= layout.used_crossovers().insert(k, freq));
    assert(split.used_shapes() =~= layout.used_shapes().insert(k + 1, layout.shapes[k]));
    law_delete_band_removes(split, inside);
    let merged = edited_by(split, delete_band_edits(split, inside));
    assert(merged.used_crossovers() =~= layout.used_crossovers());
    assert(merged.used_shapes() =~= layout.used_shapes());
}

/// No crossover lies below one before it.
pub open spec fn in_order<S: Number>(xs: Seq<S>) -> bool {
    forall|i: int, j: int| 0 <= i < j < xs.len() ==> !(#[trigger] xs[j]).below(#[trigger] xs[i])
}

/// Comparing two of `xs` compares the reals that they stand for.
pub open spec fn compare_as_reals<S: Number>(xs: Seq<S>) -> bool {
    forall|i: int, j: int|
        0 <= i < xs.len() && 0 <= j < xs.len() ==> ((#[trigger] xs[i]).below(#[trigger] xs[j])
            <==> xs[i].value() < xs[j].value())
}

/// Adding a band keeps the crossovers in order, if these and the new one compare as numbers do.
pub proof fn law_add_band_keeps_order<S: Number>(layout: Layout<S>, freq: S)
    requires
        layout.wf(),
        layout.bands < MAX_BANDS,
        compare_as_reals(layout.used_crossovers().push(freq)),
        in_order(layout.used_crossovers()),
    ensures
        in_order(edited_by(layout, add_band_edits(layout, freq)).used_crossovers()),
{
    let xs = layout.used_crossovers();
    let k = band_of(xs, freq);
    law_band_contains_frequency(xs, freq);
    law_add_band_inserts(layout, freq);
    let ys = edited_by(layout, add_band_edits(layout, freq)).used_crossovers();
    assert(ys =~= xs.insert(k, freq));
    let all = xs.push(freq);
    let n = xs.len() as int;
    assert forall|i: int| 0 <= i < n implies #[trigger] all[i] == xs[i] by {}
    assert(all[n] == freq);
    assert forall|i: int, j: int| 0 <= i < j < ys.len() implies !(#[trigger] ys[j]).below(
        #[trigger] ys[i],
    ) by {
        if i == k {
            assert(freq.below(xs[k]));
            assert(all[n].below(all[k]));
            assert(!all[j - 1].below(all[n]) || all[j - 1].value() < all[n].value());
            assert(all[j - 1].below(all[k]) <==> all[j - 1].value() < all[k].value());
            if j - 1 > k {
                assert(!xs[j - 1].below(xs[k]));
            }
        } else if j == k {
            assert(!freq.below(xs[i]));
        } else {
            let (p, q) = (if i < k { i } else { i - 1 }, if j < k { j } else { j - 1 });
            assert(!xs[q].below(xs[p]));
        }
    }
}

/// Deleting a band keeps the crossovers in order.
pub proof fn law_delete_band_keeps_order<S: Number>(layout: Layout<S>, freq: S)
    requires
        layout.wf(),
        layout.bands > 2,
        in_order(layout.used_crossovers()),
    ensures
        in_order(edited_by(layout, delete_band_edits(layout, freq)).used_crossovers()),
{
    let xs = layout.used_crossovers();
    let r = removed_crossover(layout, freq);
    law_band_contains_frequency(xs, freq);
    law_delete_band_removes(layout, freq);
    let ys = edited_by(layout, delete_band_edits(layout, freq)).used_crossovers();
    assert forall|i: int, j: int| 0 <= i < j < ys.len() implies !(#[trigger] ys[j]).below(
        #[trigger] ys[i],
    ) by {
        let (p, q) = (if i < r { i } else { i + 1 }, if j < r { j } else { j + 1 });
        assert(!xs[q].below(xs[p]));
    }
}

} // verus!
