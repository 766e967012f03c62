//! The decisions of the front end: what each event does to its state and
//! what it asks for next, and how the text of the seed field is read.

use vstd::prelude::*;
use crate::common::InitialCell;
use crate::render::{ColorChannel, RenderParams};

verus! {

/// One of the four colours of the palette, named by the load that it shows.
#[derive(Clone, Copy, PartialEq, Eq, Debug, Structural)]
pub enum SliderColor {
    Color0,
    Color1,
    Color2,
    Color3,
}

/// What the front end is busy with.
#[derive(Clone, Copy, PartialEq, Eq, Debug, Structural)]
pub enum State {
    Idle,
    Computing,
    Rendering,
}

impl Default for State {
    fn default() -> (state: State)
        ensures
            state == State::Idle,
    {
        State::Idle
    }
}

/// What reached the front end.
#[derive(Clone, Copy, PartialEq, Eq, Debug, Structural)]
pub enum Event {
    /// The text of the seed field changed.
    InitialSizeChanged,
    /// A slider moved one channel of one colour to a new value.
    ColorChanged(SliderColor, ColorChannel, u8),
    /// The button was pressed.
    BeginComputingFractal,
    /// The engine handed over its result.
    FractalComputed,
    /// The renderer handed over its picture.
    FractalRendered,
}

/// What the front end has to start next.
#[derive(Clone, Copy, PartialEq, Eq, Debug, Structural)]
pub enum Action {
    Nothing,
    Compute,
    Render,
}

/// What the front end knows between two events.
#[derive(Clone, Copy, PartialEq, Eq, Debug, Structural)]
pub struct Front {
    pub state: State,
    /// Whether a result is at hand that can be rendered.
    pub has_data: bool,
    pub render_params: RenderParams,
}

impl Front {
    /// The front end after the event.
    pub open spec fn after(self, event: Event) -> Front {
        match event {
            Event::InitialSizeChanged => self,
            Event::ColorChanged(which, channel, value) => Front {
                render_params: self.render_params.recoloured(which, channel, value),
                ..self
            },
            Event::BeginComputingFractal => Front { state: State::Computing, ..self },
            Event::FractalComputed => Front { state: State::Rendering, has_data: true, ..self },
            Event::FractalRendered => Front { state: State::Idle, ..self },
        }
    }

    /// What the event asks for: a run when the button is pressed, a picture
    /// when a result arrives or when a colour changes while a result is at
    /// hand and nothing else is going on.
    pub open spec fn asks(self, event: Event) -> Action {
        match event {
            Event::InitialSizeChanged => Action::Nothing,
            Event::ColorChanged(_, _, _) => if self.has_data && self.state == State::Idle {
                Action::Render
            } else {
                Action::Nothing
            },
            Event::BeginComputingFractal => Action::Compute,
            Event::FractalComputed => Action::Render,
            Event::FractalRendered => Action::Nothing,
        }
    }

    /// Takes the event in and says what to start next.
    pub fn update(&mut self, event: Event) -> (action: Action)
        ensures
            *final(self) == old(self).after(event),
            action == old(self).asks(event),
    {
        match event {
            Event::InitialSizeChanged => Action::Nothing,
            Event::ColorChanged(which, channel, value) => {
                self.render_params.set_channel(which, channel, value);
                if self.has_data && self.state == State::Idle {
                    Action::Render
                } else {
                    Action::Nothing
                }
            },
            Event::BeginComputingFractal => {
                self.state = State::Computing;
                Action::Compute
            },
            Event::FractalComputed => {
                self.has_data = true;
                self.state = State::Rendering;
                Action::Render
            },
            Event::FractalRendered => {
                self.state = State::Idle;
                Action::Nothing
            },
        }
    }
}

/// The byte is a decimal digit.
pub open spec fn is_digit(b: u8) -> bool {
    48 <= b <= 57
}

/// The test that keeps the decimal digits of a text.
pub open spec fn digits_only() -> spec_fn(u8) -> bool {
    |b: u8| is_digit(b)
}

/// The text with everything but the decimal digits taken out.
pub fn keep_digits(text: &[u8]) -> (digits: Vec<u8>)
    ensures
        digits@ == text@.filter(digits_only()),
{
    let n = text.len();
    let mut digits: Vec<u8> = Vec::new();
    let mut i: usize = 0;
    proof {
        assert(text@.take(0) =~= Seq::<u8>::empty());
    }
    while i < n
        invariant
            n == text@.len(),
            i <= n,
            digits@ == text@.take(i as int).filter(digits_only()),
        decreases n - i,
    {
        proof {
            assert(text@.take(i + 1) =~= text@.take(i as int).push(text@[i as int]));
            text@.take(i as int).lemma_filter_push(text@[i as int], digits_only());
        }
        let b = text[i];
        if 48 <= b && b <= 57 {
            digits.push(b);
        }
        i = i + 1;
    }
    proof {
        assert(text@.take(n as int) =~= text@);
    }
    digits
}

/// The number that a run of decimal digits writes.
pub open spec fn decimal(digits: Seq<u8>) -> int
    decreases digits.len(),
{
    if digits.len() == 0 {
        0
    } else {
        10 * decimal(digits.drop_last()) + (digits.last() - 48)
    }
}

/// The digits are decimal digits, one of them at the least.
pub open spec fn is_number(digits: Seq<u8>) -> bool {
    digits.len() > 0 && forall|i: int| 0 <= i < digits.len() ==> is_digit(#[trigger] digits[i])
}

/// A number is no less than the number that its first digits write.
pub proof fn lemma_decimal_grows(digits: Seq<u8>, k: int)
    requires
        0 <= k <= digits.len(),
        forall|i: int| 0 <= i < digits.len() ==> is_digit(#[trigger] digits[i]),
    ensures
        0 <= decimal(digits.take(k)) <= decimal(digits),
    decreases digits.len() - k,
{
    if k == digits.len() {
        assert(digits.take(k) =~= digits);
        lemma_decimal_floor(digits);
    } else {
        lemma_decimal_grows(digits, k + 1);
        assert(digits.take(k + 1).drop_last() =~= digits.take(k));
        assert(is_digit(digits[k]));
        lemma_decimal_floor(digits.take(k));
    }
}

pub proof fn lemma_decimal_floor(digits: Seq<u8>)
    requires
        forall|i: int| 0 <= i < digits.len() ==> is_digit(#[trigger] digits[i]),
    ensures
        0 <= decimal(digits),
    decreases digits.len(),
{
    if digits.len() > 0 {
        lemma_decimal_floor(digits.drop_last());
        assert(is_digit(digits[digits.len() - 1]));
    }
}

/// The grains that the text of the seed field stands for: the number that
/// it writes in decimal, where it is a run of digits that 32 bits hold.
pub fn parse_count(digits: &[u8]) -> (count: Option<u32>)
    ensures
        count is Some <==> is_number(digits@) && decimal(digits@) <= u32::MAX,
        count is Some ==> count.unwrap() == decimal(digits@),
{
    let n = digits.len();
    if n == 0 {
        return None;
    }
    let mut value: u64 = 0;
    let mut i: usize = 0;
    proof {
        assert(digits@.take(0) =~= Seq::<u8>::empty());
    }
    while i < n
        invariant
            n == digits@.len(),
            i <= n,
            value == decimal(digits@.take(i as int)),
            value <= u32::MAX,
            forall|k: int| 0 <= k < i ==> is_digit(#[trigger] digits@[k]),
        decreases n - i,
    {
        let b = digits[i];
        if b < 48 || b > 57 {
            return None;
        }
        proof {
            assert(digits@.take(i + 1).drop_last() =~= digits@.take(i as int));
        }
        value = value * 10 + (b - 48) as u64;
        if value > 0xffff_ffff {
            proof {
                if is_number(digits@) {
                    lemma_decimal_grows(digits@, i + 1);
                }
            }
            return None;
        }
        i = i + 1;
    }
    proof {
        assert(digits@.take(n as int) =~= digits@);
    }
    Some(value as u32)
}

/// The configuration of a single seed: all the grains on one cell.
pub fn single_seed(count: u32) -> (cells: Vec<InitialCell>)
    ensures
        cells@ == seq![InitialCell { x: 0, y: 0, value: count }],
{
    let mut cells: Vec<InitialCell> = Vec::new();
    cells.push(InitialCell { x: 0, y: 0, value: count });
    assert(cells@ =~= seq![InitialCell { x: 0, y: 0, value: count }]);
    cells
}

} // verus!
