//! The parameters and the editor, in fixed-point numbers.
use mbtransient::colour::{lerp_color, shape_color, Rgb};
use mbtransient::crossover::{MAX_BANDS, MAX_CROSSOVERS};
use mbtransient::fixed::Fixed;
use mbtransient::gesture::{
    bar_hovered, double_clicked, dragged_value, hovered_split, interact, nearest_line, scrolled,
    scrolled_value, secondary_clicked, spectrum_cursor, value_cursor, value_steps, Cursor, Drag,
    Happened, Mouse, Pointer, ValueStep,
};
use mbtransient::gui::{spectrum_height, ui_scale, GuiState};
use mbtransient::params::{
    add_band, band_index, delete_band, initial_xovers, Edit, MbTransientParams, Target,
    MAX_CROSSOVER_HZ, MAX_LEVEL_DB, MAX_SHAPE, MAX_SPEED_MS, MIN_BANDS, MIN_CROSSOVER_HZ,
    MIN_LEVEL_DB, MIN_SHAPE, MIN_SPEED_MS,
};
use mbtransient::plot::{
    band_curve, bins_around, column_fraction, fill_under, level_between, max_freq, shown, Plot,
    Point,
};
use mbtransient::scalar::{clamp, Scalar};
use mbtransient::shaper::{Decays, TransientShaper};
use mbtransient::spectrum::SPECTRUM_BINS;
use mbtransient::text::strip_unit;

fn n(x: i32) -> Fixed {
    Fixed::ratio(x, 1)
}

fn q(x: i32, y: i32) -> Fixed {
    Fixed::ratio(x, y)
}

// ---- numbers ----

#[test]
fn fixed_point_arithmetic() {
    assert_eq!(Fixed::one().add(Fixed::one()), n(2));
    assert_eq!(n(2).sub(n(5)), n(-3));
    assert_eq!(q(3, 2).mul(q(-5, 2)), q(-15, 4));
    assert_eq!(n(7).div(n(-2)), q(-7, 2));
    assert_eq!(n(3).neg(), n(-3));
    assert_eq!(n(-3).abs(), n(3));
    assert_eq!(n(-3).max(n(2)), n(2));
    assert_eq!(n(-3).min(n(2)), n(-3));
    assert_eq!(Fixed::from_usize(9), n(9));
    assert_eq!(Fixed::zero(), n(0));
    assert!(n(1).lt(n(2)) && !n(2).lt(n(2)) && n(2).le(n(2)) && n(2).equals(n(2)));
    assert_eq!(Fixed::from_bits(1).mul(q(1, 2)), Fixed::zero());
    assert_eq!(Fixed::from_bits(-1).mul(q(1, 2)), Fixed::zero());
}

#[test]
fn fixed_point_numbers_are_held_in_range() {
    let most = Fixed::from_bits(i64::MAX);
    let least = Fixed::from_bits(i64::MIN);
    assert_eq!(most.add(Fixed::one()), most);
    assert_eq!(least.sub(Fixed::one()), least);
    assert_eq!(most.mul(n(-2)), least);
    assert_eq!(least.neg(), most);
    assert_eq!(least.abs(), most);
    assert_eq!(n(1).div(n(0)), most);
    assert_eq!(n(-1).div(n(0)), least);
    assert_eq!(n(0).div(n(0)), n(0));
    assert_eq!(n(1).div(Fixed::from_bits(1)), most);
    assert_eq!(Fixed::from_usize(usize::MAX), most);
}

#[test]
fn fixed_point_conversions() {
    assert_eq!(q(7, 2).to_usize(), 3);
    assert_eq!(q(-7, 2).to_usize(), 0);
    assert_eq!(q(5, 2).to_byte(), 3);
    assert_eq!(q(9, 4).to_byte(), 2);
    assert_eq!(n(300).to_byte(), 255);
    assert_eq!(n(-3).to_byte(), 0);
    assert_eq!(Fixed::tau().to_usize(), 6);
    assert!(Fixed::frac_1_sqrt_2().mul(Fixed::frac_1_sqrt_2()).sub(q(1, 2)).abs().lt(q(1, 1000000)));
    assert_eq!(clamp(n(5), n(0), n(3)), n(3));
    assert_eq!(clamp(n(-5), n(0), n(3)), n(0));
    assert_eq!(clamp(n(2), n(0), n(3)), n(2));
}

// ---- parameters ----

fn layout(bands: i32, crossovers: [i32; 5], shapes: [i32; 6]) -> MbTransientParams<Fixed> {
    MbTransientParams {
        num_bands: bands,
        crossover_1: n(crossovers[0]),
        crossover_2: n(crossovers[1]),
        crossover_3: n(crossovers[2]),
        crossover_4: n(crossovers[3]),
        crossover_5: n(crossovers[4]),
        band_0: q(shapes[0], 10),
        band_1: q(shapes[1], 10),
        band_2: q(shapes[2], 10),
        band_3: q(shapes[3], 10),
        band_4: q(shapes[4], 10),
        band_5: q(shapes[5], 10),
        speed: n(50),
        output: n(-6),
    }
}

fn four() -> MbTransientParams<Fixed> {
    layout(4, [150, 1500, 8000, 12_000, 16_000], [1, 2, 3, 4, 5, 6])
}

fn apply(params: &mut MbTransientParams<Fixed>, edits: &[Edit<Fixed>]) {
    for edit in edits {
        match edit {
            Edit::Assign(Target::Crossover(i), v) => match i {
                0 => params.crossover_1 = *v,
                1 => params.crossover_2 = *v,
                2 => params.crossover_3 = *v,
                3 => params.crossover_4 = *v,
                4 => params.crossover_5 = *v,
                _ => unreachable!(),
            },
            Edit::Assign(Target::Band(i), v) => match i {
                0 => params.band_0 = *v,
                1 => params.band_1 = *v,
                2 => params.band_2 = *v,
                3 => params.band_3 = *v,
                4 => params.band_4 = *v,
                5 => params.band_5 = *v,
                _ => unreachable!(),
            },
            Edit::SetBands(m) => params.num_bands = *m,
            Edit::Begin(_) | Edit::End(_) => {}
        }
    }
}

fn crossovers(params: &MbTransientParams<Fixed>) -> Vec<Fixed> {
    (0..MAX_CROSSOVERS).map(|i| *params.crossover(i)).collect()
}

fn shapes(params: &MbTransientParams<Fixed>) -> Vec<Fixed> {
    (0..MAX_BANDS).map(|i| *params.band(i)).collect()
}

fn whole(xs: &[i32]) -> Vec<Fixed> {
    xs.iter().map(|x| n(*x)).collect()
}

fn tenths(xs: &[i32]) -> Vec<Fixed> {
    xs.iter().map(|x| q(*x, 10)).collect()
}

#[test]
fn default_parameters() {
    let params = MbTransientParams::<Fixed>::default();
    assert_eq!(params.num_bands, 4);
    assert_eq!(crossovers(&params), whole(&[150, 1500, 8000, 12_000, 16_000]));
    assert_eq!(shapes(&params), vec![n(0); 6]);
    assert_eq!((params.speed, params.output), (n(50), n(-6)));
    assert_eq!(initial_xovers::<Fixed>().to_vec(), crossovers(&params));
}

#[test]
fn defaults_lie_in_their_ranges() {
    let params = MbTransientParams::<Fixed>::default();
    let within = |x: Fixed, lo: i32, hi: i32| n(lo).le(x) && x.le(n(hi));
    assert_eq!((MIN_BANDS, MAX_BANDS), (2, 6));
    assert_eq!((MIN_CROSSOVER_HZ, MAX_CROSSOVER_HZ), (20, 20_000));
    assert_eq!((MIN_SHAPE, MAX_SHAPE), (-1, 1));
    assert_eq!((MIN_SPEED_MS, MAX_SPEED_MS), (2, 200));
    assert_eq!((MIN_LEVEL_DB, MAX_LEVEL_DB), (-30, 6));
    assert!(MIN_BANDS <= params.num_bands && params.num_bands <= MAX_BANDS as i32);
    assert!(within(params.speed, MIN_SPEED_MS, MAX_SPEED_MS));
    assert!(within(params.output, MIN_LEVEL_DB, MAX_LEVEL_DB));
    for x in crossovers(&params) {
        assert!(within(x, MIN_CROSSOVER_HZ, MAX_CROSSOVER_HZ));
    }
    for x in shapes(&params) {
        assert!(within(x, MIN_SHAPE, MAX_SHAPE));
    }
}

#[test]
fn neutral_shapers_change_nothing_in_fixed_point() {
    let mut shaper = TransientShaper::<Fixed>::new();
    shaper.smooth(Decays { release: q(9, 10), body: q(4, 5), gain: q(1, 3) });
    let mut mirror = TransientShaper::<Fixed>::new();
    mirror.smooth(Decays { release: q(9, 10), body: q(4, 5), gain: q(1, 3) });
    for k in 0..200 {
        let x = q((k * 7919) % 2001 - 1000, 999);
        assert_eq!(shaper.process(x, n(1), n(1)), x);
        assert_eq!(mirror.process(x.neg(), n(1), n(1)), x.neg());
        assert_eq!(shaper.env, mirror.env);
    }
}

#[test]
fn shapers_only_ever_cut_in_fixed_point() {
    let mut shaper = TransientShaper::<Fixed>::new();
    shaper.smooth(Decays { release: q(9, 10), body: q(4, 5), gain: q(1, 3) });
    for k in 0..500 {
        let x = q((k * 7919) % 2001 - 1000, 77);
        let (a, s) = (q(k % 11, 10).min(n(1)), q(k % 7, 6));
        let y = shaper.process(x, a, s);
        assert!(y.abs().le(x.abs()));
        assert!(n(0).le(y.mul(x)));
        assert!(n(0).le(shaper.gain) && shaper.gain.le(n(1)));
        assert!(x.abs().le(shaper.env));
    }
    let lowest = Fixed::from_bits(i64::MIN);
    assert!(lowest.le(shaper.process(lowest, n(1), n(1))));
}

#[test]
fn the_first_of_equally_near_lines_wins() {
    let lines = [n(100), n(110), n(110), n(120)];
    assert_eq!(nearest_line(&lines, n(105), n(10)), Some(0));
    assert_eq!(nearest_line(&lines, n(110), n(10)), Some(1));
    assert_eq!(nearest_line(&lines, n(115), n(10)), Some(1));
}

#[test]
fn band_of_a_frequency() {
    let params = four();
    assert_eq!(band_index(&params, n(20), 4), 0);
    assert_eq!(band_index(&params, n(150), 4), 1);
    assert_eq!(band_index(&params, n(7999), 4), 2);
    assert_eq!(band_index(&params, n(20_000), 4), 3);
    assert_eq!(band_index(&params, n(20_000), 1), 0);
}

#[test]
fn adding_a_band_inserts_a_crossover() {
    let mut params = four();
    let edits = add_band(&params, n(500));
    assert_eq!(edits.len(), 7);
    assert!(matches!(edits[0], Edit::Assign(Target::Crossover(3), v) if v == n(8000)));
    assert!(matches!(edits[1], Edit::Assign(Target::Crossover(2), v) if v == n(1500)));
    assert!(matches!(edits[2], Edit::Assign(Target::Crossover(1), v) if v == n(500)));
    assert!(matches!(edits[3], Edit::Assign(Target::Band(4), v) if v == q(4, 10)));
    assert!(matches!(edits[4], Edit::Assign(Target::Band(3), v) if v == q(3, 10)));
    assert!(matches!(edits[5], Edit::Assign(Target::Band(2), v) if v == q(2, 10)));
    assert!(matches!(edits[6], Edit::SetBands(5)));
    apply(&mut params, &edits);
    assert_eq!(crossovers(&params), whole(&[150, 500, 1500, 8000, 16_000]));
    assert_eq!(shapes(&params), tenths(&[1, 2, 2, 3, 4, 6]));
}

#[test]
fn six_bands_are_the_most() {
    let params = layout(6, [1, 2, 3, 4, 5], [0; 6]);
    assert!(add_band(&params, n(3)).is_empty());
    let mut params = layout(5, [100, 200, 300, 400, 16_000], [1, 2, 3, 4, 5, 6]);
    let edits = add_band(&params, n(1000));
    apply(&mut params, &edits);
    assert_eq!(params.num_bands, 6);
    assert_eq!(crossovers(&params), whole(&[100, 200, 300, 400, 1000]));
    assert_eq!(shapes(&params), tenths(&[1, 2, 3, 4, 5, 5]));
}

#[test]
fn deleting_a_band_removes_a_crossover() {
    let mut params = four();
    let edits = delete_band(&params, n(500));
    assert_eq!(edits.len(), 3);
    apply(&mut params, &edits);
    assert_eq!(params.num_bands, 3);
    assert_eq!(crossovers(&params)[..2], whole(&[150, 8000])[..]);
    assert_eq!(shapes(&params)[..3], tenths(&[1, 2, 4])[..]);
    // The last band goes with the crossover below it.
    let mut params = four();
    let edits = delete_band(&params, n(20_000));
    apply(&mut params, &edits);
    assert_eq!(crossovers(&params)[..2], whole(&[150, 1500])[..]);
    assert_eq!(shapes(&params)[..3], tenths(&[1, 2, 3])[..]);
}

#[test]
fn two_bands_are_the_fewest() {
    let params = layout(2, [150, 1, 2, 3, 4], [0; 6]);
    assert!(delete_band(&params, n(20)).is_empty());
}

#[test]
fn deleting_undoes_adding() {
    for freq in [50, 149, 150, 700, 8000, 19_000] {
        let mut params = four();
        let edits = add_band(&params, n(freq));
        apply(&mut params, &edits);
        let used = crossovers(&params);
        for i in 1..4 {
            assert!(used[i - 1].le(used[i]));
        }
        let edits = delete_band(&params, n(freq).sub(Fixed::from_bits(1)));
        apply(&mut params, &edits);
        assert_eq!(params.num_bands, 4);
        assert_eq!(crossovers(&params)[..3], crossovers(&four())[..3]);
        assert_eq!(shapes(&params)[..4], shapes(&four())[..4]);
    }
}

// ---- gestures ----

fn pointer(x: i32, y: i32, freq: i32) -> Pointer<Fixed> {
    Pointer { at: Point { x: n(x), y: n(y) }, freq: n(freq) }
}

fn plot() -> Plot<Fixed> {
    Plot { left: n(10), top: n(20), right: n(410), bottom: n(120) }
}

#[test]
fn nearest_of_several_lines() {
    let lines = whole(&[100, 200, 208]);
    assert_eq!(nearest_line(&lines, n(103), n(10)), Some(0));
    assert_eq!(nearest_line(&lines, n(203), n(10)), Some(1));
    assert_eq!(nearest_line(&lines, n(204), n(10)), Some(1));
    assert_eq!(nearest_line(&lines, n(205), n(10)), Some(2));
    assert_eq!(nearest_line(&lines, n(110), n(10)), None);
    assert_eq!(nearest_line(&[], n(110), n(10)), None);
}

#[test]
fn highlighted_splits_stick() {
    let lines = whole(&[100, 200]);
    assert_eq!(hovered_split(Some(n(109)), &lines, None, n(1)), Some(0));
    assert_eq!(hovered_split(Some(n(115)), &lines, None, n(1)), None);
    assert_eq!(hovered_split(Some(n(115)), &lines, Some(0), n(1)), Some(0));
    assert_eq!(hovered_split(Some(n(122)), &lines, Some(0), n(1)), None);
    assert_eq!(hovered_split(Some(n(122)), &lines, Some(0), n(2)), Some(0));
    assert_eq!(hovered_split(Some(n(195)), &lines, Some(0), n(1)), Some(1));
    assert_eq!(hovered_split(Some(n(115)), &lines, Some(2), n(1)), None);
    assert_eq!(hovered_split(None, &lines, Some(0), n(1)), None);
}

#[test]
fn dragging_a_split() {
    let params = four();
    let mut drag = Drag::new();
    let edits = drag.started(&params, Some(pointer(100, 50, 1400)), Some(1));
    assert_eq!(edits.len(), 1);
    assert!(matches!(edits[0], Edit::Begin(Target::Crossover(1))));
    let edits = drag.dragged(&params, Some(pointer(120, 90, 2000)), &plot(), n(22_050));
    assert_eq!(edits.len(), 1);
    assert!(matches!(edits[0], Edit::Assign(Target::Crossover(1), v) if v == n(2000)));
    let edits = drag.dragged(&params, Some(pointer(120, 90, 30_000)), &plot(), n(22_050));
    assert!(matches!(edits[0], Edit::Assign(Target::Crossover(1), v) if v == n(22_050)));
    assert!(drag.dragged(&params, None, &plot(), n(22_050)).is_empty());
    let edits = drag.stopped(&params);
    assert_eq!(edits.len(), 1);
    assert!(matches!(edits[0], Edit::End(Target::Crossover(1))));
    assert!(drag.split.is_none() && drag.band.is_none());
    assert!(drag.stopped(&params).is_empty());
}

#[test]
fn dragging_a_band() {
    let params = four();
    let mut drag = Drag::new();
    let edits = drag.started(&params, Some(pointer(100, 50, 1400)), None);
    assert!(matches!(edits[0], Edit::Begin(Target::Band(1))));
    // Half the height is half the range.
    let edits = drag.dragged(&params, Some(pointer(100, 25, 9000)), &plot(), n(22_050));
    assert!(matches!(edits[0], Edit::Assign(Target::Band(1), v) if v.sub(q(7, 10)).abs().lt(q(1, 1000))));
    let edits = drag.dragged(&params, Some(pointer(100, 500, 9000)), &plot(), n(22_050));
    assert!(matches!(edits[0], Edit::Assign(Target::Band(1), v) if v == n(-1)));
    let edits = drag.stopped(&params);
    assert!(matches!(edits[0], Edit::End(Target::Band(1))));
}

#[test]
fn a_target_that_is_gone_is_let_go() {
    let mut drag = Drag::<Fixed>::new();
    drag.started(&four(), Some(pointer(0, 0, 0)), Some(2));
    let two = layout(2, [150, 1500, 8000, 12_000, 16_000], [0; 6]);
    assert!(drag.dragged(&two, Some(pointer(0, 0, 0)), &plot(), n(100)).is_empty());
    assert!(drag.stopped(&two).is_empty());
    let mut drag = Drag::<Fixed>::new();
    assert!(drag.started(&four(), None, Some(2)).is_empty());
    drag.started(&four(), Some(pointer(0, 0, 20_000)), None);
    assert_eq!(drag.band, Some(3));
    assert!(drag.dragged(&two, Some(pointer(0, 0, 0)), &plot(), n(100)).is_empty());
    assert!(drag.stopped(&two).is_empty());
}

#[test]
fn the_wheel_changes_a_band() {
    let params = layout(4, [150, 1500, 8000, 12_000, 16_000], [0, 0, 10, 0, 0, 0]);
    let at = Some(pointer(0, 0, 200));
    let edits = scrolled(&params, at, None, n(10), false);
    assert!(matches!(edits[0], Edit::Assign(Target::Band(1), v) if v == n(10).mul(q(15, 1000))));
    let edits = scrolled(&params, at, None, n(-10), true);
    assert!(matches!(edits[0], Edit::Assign(Target::Band(1), v) if v == n(-10).mul(q(3, 1000))));
    let edits = scrolled(&params, Some(pointer(0, 0, 2000)), None, n(10), false);
    assert!(matches!(edits[0], Edit::Assign(Target::Band(2), v) if v == n(1)));
    assert!(scrolled(&params, at, Some(0), n(10), false).is_empty());
    assert!(scrolled(&params, at, None, n(0), false).is_empty());
    assert!(scrolled(&params, None, None, n(10), false).is_empty());
}

#[test]
fn clicks_delete_reset_and_add() {
    let params = four();
    assert_eq!(secondary_clicked(&params, Some(pointer(0, 0, 500))).len(), 3);
    assert!(secondary_clicked(&params, None).is_empty());
    let display = [n(0); MAX_BANDS];
    // The bar of a neutral band is in the middle.
    let edits = double_clicked(&params, Some(pointer(50, 83, 500)), None, &plot(), &display, n(1));
    assert_eq!(edits.len(), 1);
    assert!(matches!(edits[0], Edit::Assign(Target::Band(1), v) if v == n(0)));
    let edits = double_clicked(&params, Some(pointer(50, 84, 500)), None, &plot(), &display, n(1));
    assert_eq!(edits.len(), 7);
    let on_split = Some(pointer(50, 84, 500));
    assert!(double_clicked(&params, on_split, Some(0), &plot(), &display, n(1)).is_empty());
    assert!(double_clicked(&params, None, None, &plot(), &display, n(1)).is_empty());
}

fn quiet() -> Mouse<Fixed> {
    Mouse {
        hover: None,
        press: None,
        hovered: false,
        scroll: n(0),
        fine: false,
        drag_started: false,
        dragged: false,
        secondary_clicked: false,
        double_clicked: false,
        drag_stopped: false,
    }
}

#[test]
fn a_whole_gesture() {
    let params = four();
    let lines = whole(&[100, 200, 300]);
    let mut gui = GuiState::default();
    let mut drag = Drag::new();
    let mut step = |mouse: Mouse<Fixed>| {
        let edits =
            interact(&mut gui, &mut drag, &params, &mouse, &lines, &plot(), n(22_050), n(1));
        (edits, gui.hovered_split)
    };
    let at = |x: i32, freq: i32| Some(pointer(x, 100, freq));
    let (edits, split) = step(Mouse { hover: at(105, 160), hovered: true, ..quiet() });
    assert!(edits.is_empty());
    assert_eq!(split, Some(0));
    let (edits, _) = step(Mouse {
        hover: at(105, 160),
        press: at(105, 160),
        hovered: true,
        scroll: n(3),
        drag_started: true,
        dragged: true,
        ..quiet()
    });
    assert_eq!(edits.len(), 2);
    assert!(matches!(edits[0], Edit::Begin(Target::Crossover(0))));
    assert!(matches!(edits[1], Edit::Assign(Target::Crossover(0), v) if v == n(160)));
    let (edits, split) =
        step(Mouse { press: at(150, 400), dragged: true, drag_stopped: true, ..quiet() });
    assert_eq!(split, None);
    assert_eq!(edits.len(), 2);
    assert!(matches!(edits[0], Edit::Assign(Target::Crossover(0), v) if v == n(400)));
    assert!(matches!(edits[1], Edit::End(Target::Crossover(0))));
    let (edits, _) = step(Mouse { press: at(150, 400), dragged: true, ..quiet() });
    assert!(edits.is_empty());
}

#[test]
fn clicks_in_one_frame() {
    let params = four();
    let lines = whole(&[100, 200, 300]);
    let mut gui = GuiState::default();
    let mut drag = Drag::new();
    // A double-click counts where the mouse is pressed, if it is not over the spectrum.
    let mouse = Mouse { press: Some(pointer(150, 110, 500)), double_clicked: true, ..quiet() };
    let edits = interact(&mut gui, &mut drag, &params, &mouse, &lines, &plot(), n(22_050), n(1));
    assert_eq!(edits.len(), 7);
    let mouse = Mouse {
        hover: Some(pointer(150, 70, 500)),
        press: Some(pointer(150, 70, 500)),
        hovered: true,
        scroll: n(1),
        secondary_clicked: true,
        double_clicked: true,
        ..quiet()
    };
    let edits = interact(&mut gui, &mut drag, &params, &mouse, &lines, &plot(), n(22_050), n(1));
    // The wheel, the deleted band and the reset band.
    assert_eq!(edits.len(), 1 + 3 + 1);
    assert!(matches!(edits[0], Edit::Assign(Target::Band(1), _)));
    assert!(matches!(edits[3], Edit::SetBands(3)));
    assert!(matches!(edits[4], Edit::Assign(Target::Band(1), v) if v == n(0)));
}

#[test]
fn bars_light_up() {
    let at = |x: i32, y: i32| Some(Point { x: n(x), y: n(y) });
    assert!(bar_hovered(at(50, 60), n(40), n(60), n(70), None, n(1)));
    assert!(bar_hovered(at(40, 57), n(40), n(60), n(70), None, n(1)));
    assert!(!bar_hovered(at(40, 56), n(40), n(60), n(70), None, n(1)));
    assert!(!bar_hovered(at(39, 70), n(40), n(60), n(70), None, n(1)));
    assert!(!bar_hovered(at(61, 70), n(40), n(60), n(70), None, n(1)));
    assert!(!bar_hovered(at(50, 70), n(40), n(60), n(70), Some(0), n(1)));
    assert!(!bar_hovered(None, n(40), n(60), n(70), None, n(1)));
}

#[test]
fn cursors() {
    assert_eq!(spectrum_cursor(true, Some(1)), Some(Cursor::ResizeHorizontal));
    assert_eq!(spectrum_cursor(true, None), Some(Cursor::ResizeVertical));
    assert_eq!(spectrum_cursor(false, Some(1)), None);
    assert_eq!(value_cursor(true), Some(Cursor::ResizeVertical));
    assert_eq!(value_cursor(false), None);
}

#[test]
fn readouts_act_in_order() {
    let all = Happened {
        hovered: true,
        scrolled: true,
        drag_started: true,
        dragged: true,
        double_clicked: true,
        drag_stopped: true,
    };
    assert_eq!(
        value_steps(all),
        [ValueStep::Scroll, ValueStep::Begin, ValueStep::Drag, ValueStep::Reset, ValueStep::End]
    );
    assert_eq!(value_steps(Happened { hovered: false, dragged: false, ..all }).len(), 3);
    assert_eq!(scrolled_value(q(1, 2), n(100), false), q(1, 2).add(n(100).mul(q(1, 1000))));
    assert_eq!(scrolled_value(q(1, 2), n(100), true), q(1, 2).add(n(100).mul(q(1, 5000))));
    assert_eq!(scrolled_value(q(1, 2), n(1000), false), n(1));
    assert_eq!(dragged_value(q(1, 2), n(10), false), q(1, 2).sub(n(10).mul(q(1, 250))));
    assert_eq!(dragged_value(q(1, 2), n(10), true), q(1, 2).sub(n(10).mul(q(1, 1000))));
    assert_eq!(dragged_value(q(1, 2), n(1000), false), n(0));
}

// ---- what is drawn ----

#[test]
fn positions_on_the_plot() {
    let plot = plot();
    assert_eq!(max_freq(n(48_000)), n(24_000));
    assert_eq!(max_freq(n(0)), q(1, 2));
    assert!(shown(n(21), n(24_000)) && !shown(n(20), n(24_000)) && !shown(n(24_000), n(24_000)));
    assert_eq!(plot.x_at(n(1), n(4)), n(110));
    assert_eq!(plot.x_to_fraction(n(110)), q(1, 4));
    assert_eq!(plot.x_to_fraction(n(0)), n(0));
    assert_eq!(plot.x_to_fraction(n(1000)), n(1));
    assert_eq!(plot.db_to_y(n(0)), n(20));
    assert_eq!(plot.db_to_y(n(-35)), n(70));
    assert_eq!(plot.db_to_y(n(-70)), n(120));
    assert_eq!(plot.db_to_y(n(-200)), n(120));
    assert_eq!(plot.db_to_y(n(6)), n(20));
    assert_eq!(plot.bar_y(n(0)), n(70));
    assert_eq!(plot.bar_y(n(1)), n(20));
    assert_eq!(plot.bar_y(n(-1)), n(120));
    assert_eq!(plot.columns(), 133);
    assert_eq!(Plot { right: n(11), ..plot }.columns(), 2);
}

#[test]
fn frequencies_and_positions() {
    // A logarithm to the base 10 of powers of 10, times 4.
    let ln = |x: Fixed| {
        let k = [1, 10, 100, 1000].iter().position(|p| n(*p) == x).unwrap();
        n(4 * k as i32)
    };
    let powf = |base: Fixed, t: Fixed| {
        assert_eq!(base, n(1000));
        if t == n(0) {
            n(1)
        } else if t == n(1) {
            n(1000)
        } else {
            n(10)
        }
    };
    let plot = Plot { left: n(0), top: n(0), right: n(300), bottom: n(100) };
    assert_eq!(plot.freq_to_x(n(20), n(20_000), &ln), n(0));
    assert_eq!(plot.freq_to_x(n(20_000), n(20_000), &ln), n(300));
    let lines = plot.lines(&whole(&[20, 20_000, 5]), 2, n(20_000), &ln);
    assert_eq!(lines, whole(&[0, 300]));
    assert_eq!(plot.x_to_freq(n(-5), n(20_000), &powf), n(20));
    assert_eq!(plot.x_to_freq(n(300), n(20_000), &powf), n(20_000));
    assert_eq!(plot.x_to_freq(n(100), n(20_000), &powf), n(200));
    let p = Pointer::new(Point { x: n(100), y: n(7) }, &plot, n(20_000), &powf);
    assert_eq!((p.at.x, p.at.y, p.freq), (n(100), n(7), n(200)));
}

#[test]
fn the_curve_through_the_levels() {
    let ln = |x: Fixed| if x == n(1) { n(0) } else { n(1) };
    let powf = |base: Fixed, t: Fixed| if t == n(0) { n(1) } else { base };
    let mut levels = vec![n(-70); SPECTRUM_BINS];
    // 20 Hz lies at 20 * 4096 / 40960 = 2, and the highest frequency at the last bin.
    levels[2] = n(-35);
    levels[SPECTRUM_BINS - 1] = n(-7);
    let plot = Plot { left: n(0), top: n(0), right: n(6), bottom: n(100) };
    let curve = plot.curve(&levels, n(40_960), &ln, &powf);
    assert_eq!(curve.len(), 2);
    assert_eq!((curve[0].x, curve[0].y), (n(0), n(50)));
    assert_eq!((curve[1].x, curve[1].y), (n(6), plot.db_to_y(n(-7))));
}

#[test]
fn levels_between_bins() {
    let mix = bins_around(n(25), n(40_960));
    assert_eq!((mix.bin0, mix.bin1, mix.frac), (2, 3, q(1, 2)));
    assert_eq!(level_between(n(-20), n(-40), mix.frac), n(-30));
    assert_eq!(level_between(n(-100), n(-100), mix.frac), n(-70));
    assert_eq!(level_between(n(10), n(10), mix.frac), n(0));
    let last = bins_around(n(30_000), n(40_960));
    assert_eq!((last.bin0, last.bin1), (SPECTRUM_BINS - 1, SPECTRUM_BINS - 1));
    assert_eq!(column_fraction::<Fixed>(1, 3), q(1, 2));
}

#[test]
fn bands_take_their_part_of_the_curve() {
    let plot = plot();
    let lines = whole(&[100, 200]);
    assert_eq!(plot.band_span(&lines, 0), (n(10), n(100)));
    assert_eq!(plot.band_span(&lines, 1), (n(100), n(200)));
    assert_eq!(plot.band_span(&lines, 2), (n(200), n(410)));
    assert_eq!(plot.band_span(&[], 0), (n(10), n(410)));
    let columns: Vec<Point<Fixed>> =
        [98, 99, 100, 101, 150, 200, 201].iter().map(|x| Point { x: n(*x), y: n(0) }).collect();
    let part = band_curve(&columns, n(100), n(200));
    let xs: Vec<Fixed> = part.iter().map(|p| p.x).collect();
    assert_eq!(xs, whole(&[100, 101, 150, 200]));
    let half = band_curve(&columns, q(201, 2), n(150));
    assert_eq!(half[0].x, n(100));
}

#[test]
fn the_area_under_the_curve() {
    let points: Vec<Point<Fixed>> = (0..3).map(|x| Point { x: n(x), y: n(10 * x) }).collect();
    let mesh = fill_under(&points, n(120));
    assert_eq!(mesh.vertices.len(), 8);
    assert_eq!(mesh.triangles, [(0, 1, 2), (2, 1, 3), (4, 5, 6), (6, 5, 7)]);
    assert_eq!((mesh.vertices[4].at.x, mesh.vertices[4].at.y), (n(1), n(10)));
    assert_eq!((mesh.vertices[7].at.x, mesh.vertices[7].at.y), (n(2), n(120)));
    assert!(mesh.vertices[4].on_curve && !mesh.vertices[7].on_curve);
    assert!(fill_under(&points[..1], n(0)).vertices.is_empty());
    assert!(fill_under::<Fixed>(&[], n(0)).triangles.is_empty());
}

#[test]
fn colours_of_shapes() {
    let light = Rgb { r: 176, g: 181, b: 190 };
    let mid = Rgb { r: 104, g: 110, b: 120 };
    let dark = Rgb { r: 34, g: 36, b: 40 };
    assert_eq!(shape_color(n(-1)), light);
    assert_eq!(shape_color(n(-7)), light);
    assert_eq!(shape_color(n(0)), mid);
    assert_eq!(shape_color(n(1)), dark);
    assert_eq!(shape_color(n(7)), dark);
    assert_eq!(shape_color(q(-1, 2)), Rgb { r: 140, g: 146, b: 155 });
    assert_eq!(lerp_color(light, dark, n(-1)), light);
    assert_eq!(lerp_color(light, dark, n(2)), dark);
}

#[test]
fn the_editor_scales() {
    assert_eq!(ui_scale(n(440), n(160)), n(1));
    assert_eq!(ui_scale(n(880), n(240)), q(3, 2));
    assert_eq!(ui_scale(n(100), n(240)), q(4, 5));
    assert_eq!(ui_scale(n(4400), n(2400)), n(2));
    assert_eq!(spectrum_height(n(200), n(2)), n(140));
    assert_eq!(spectrum_height(n(100), n(1)), n(90));
}

#[test]
fn displayed_values_ease() {
    let mut gui = GuiState::<Fixed>::default();
    assert_eq!(gui.display_xover.to_vec(), whole(&[150, 1500, 8000, 12_000, 16_000]));
    let mut params = MbTransientParams::default();
    params.band_2 = n(1);
    params.crossover_1 = n(250);
    gui.follow(&params);
    assert_eq!(gui.display_p[2], q(1, 5));
    assert_eq!(gui.display_xover[0], n(150).add(n(100).mul(q(1, 5))));
    assert_eq!(gui.display_xover[1], n(1500));
    // A new number of bands snaps.
    params.num_bands = 5;
    gui.follow(&params);
    assert_eq!(gui.display_p[2], n(1));
    assert_eq!(gui.display_xover[0], n(250));
    assert_eq!(gui.last_num_bands, 5);
}

#[test]
fn units_are_stripped() {
    assert_eq!(strip_unit(" 50 ms ", "ms"), "50");
    assert_eq!(strip_unit("50", "ms"), "50");
    assert_eq!(strip_unit("-6.0dBdB", "dB"), "-6.0");
    assert_eq!(strip_unit("ms", "ms"), "");
    assert_eq!(strip_unit("", "ms"), "");
    assert_eq!(strip_unit("\u{3000}1 ms ms", "ms"), "1 ms");
    assert_eq!(strip_unit("s", "ms"), "s");
}
