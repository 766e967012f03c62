//! The colours of the picture: one for each load that a stable cell can hold.

use vstd::prelude::*;
use crate::gui::SliderColor;

verus! {

/// One of the three channels of a colour.
#[derive(Clone, Copy, PartialEq, Eq, Debug, Structural)]
pub enum ColorChannel {
    Red,
    Green,
    Blue,
}

/// A colour, eight bits to the channel.
#[derive(Clone, Copy, PartialEq, Eq, Debug, Structural)]
pub struct RenderColor {
    pub red: u8,
    pub green: u8,
    pub blue: u8,
}

impl RenderColor {
    /// The value of one channel.
    pub open spec fn channel(self, channel: ColorChannel) -> u8 {
        match channel {
            ColorChannel::Red => self.red,
            ColorChannel::Green => self.green,
            ColorChannel::Blue => self.blue,
        }
    }

    /// The colour with one channel replaced.
    pub open spec fn with(self, channel: ColorChannel, value: u8) -> RenderColor {
        match channel {
            ColorChannel::Red => RenderColor { red: value, ..self },
            ColorChannel::Green => RenderColor { green: value, ..self },
            ColorChannel::Blue => RenderColor { blue: value, ..self },
        }
    }

    /// The value of one channel.
    pub fn get(&self, channel: ColorChannel) -> (value: u8)
        ensures
            value == self.channel(channel),
    {
        match channel {
            ColorChannel::Red => self.red,
            ColorChannel::Green => self.green,
            ColorChannel::Blue => self.blue,
        }
    }

    /// Replaces one channel and leaves the other two.
    pub fn set(&mut self, channel: ColorChannel, value: u8)
        ensures
            *final(self) == old(self).with(channel, value),
    {
        match channel {
            ColorChannel::Red => {
                self.red = value;
            },
            ColorChannel::Green => {
                self.green = value;
            },
            ColorChannel::Blue => {
                self.blue = value;
            },
        }
    }
}

/// The palette: the colours of an empty cell and of cells holding one, two
/// and three grains or more.
#[derive(Clone, Copy, PartialEq, Eq, Debug, Structural)]
pub struct RenderParams {
    pub color0: RenderColor,
    pub color1: RenderColor,
    pub color2: RenderColor,
    pub color3: RenderColor,
}

impl RenderParams {
    /// The colour of a cell that holds `load` grains.
    pub open spec fn shade(self, load: u8) -> RenderColor {
        if load == 0 {
            self.color0
        } else if load == 1 {
            self.color1
        } else if load == 2 {
            self.color2
        } else {
            self.color3
        }
    }

    /// The colour that a slider group stands for.
    pub open spec fn slot(self, which: SliderColor) -> RenderColor {
        match which {
            SliderColor::Color0 => self.color0,
            SliderColor::Color1 => self.color1,
            SliderColor::Color2 => self.color2,
            SliderColor::Color3 => self.color3,
        }
    }

    /// The palette with one channel of one colour replaced.
    pub open spec fn recoloured(
        self,
        which: SliderColor,
        channel: ColorChannel,
        value: u8,
    ) -> RenderParams {
        match which {
            SliderColor::Color0 => RenderParams {
                color0: self.color0.with(channel, value),
                ..self
            },
            SliderColor::Color1 => RenderParams {
                color1: self.color1.with(channel, value),
                ..self
            },
            SliderColor::Color2 => RenderParams {
                color2: self.color2.with(channel, value),
                ..self
            },
            SliderColor::Color3 => RenderParams {
                color3: self.color3.with(channel, value),
                ..self
            },
        }
    }

    /// The colour of a cell that holds `load` grains.
    pub fn color_of(&self, load: u8) -> (color: RenderColor)
        ensures
            color == self.shade(load),
    {
        match load {
            0 => self.color0,
            1 => self.color1,
            2 => self.color2,
            _ => self.color3,
        }
    }

    /// The colour that a slider group stands for.
    pub fn color(&self, which: SliderColor) -> (color: RenderColor)
        ensures
            color == self.slot(which),
    {
        match which {
            SliderColor::Color0 => self.color0,
            SliderColor::Color1 => self.color1,
            SliderColor::Color2 => self.color2,
            SliderColor::Color3 => self.color3,
        }
    }

    /// Sets one channel of one colour of the palette and leaves the rest.
    pub fn set_channel(&mut self, which: SliderColor, channel: ColorChannel, value: u8)
        ensures
            *final(self) == old(self).recoloured(which, channel, value),
    {
        match which {
            SliderColor::Color0 => {
                self.color0.set(channel, value);
            },
            SliderColor::Color1 => {
                self.color1.set(channel, value);
            },
            SliderColor::Color2 => {
                self.color2.set(channel, value);
            },
            SliderColor::Color3 => {
                self.color3.set(channel, value);
            },
        }
    }
}

impl Default for RenderParams {
    /// Black for an empty cell, blue for one grain, yellow for two and red
    /// for three or more.
    fn default() -> (params: Self)
        ensures
            params.color0 == (RenderColor { red: 0, green: 0, blue: 0 }),
            params.color1 == (RenderColor { red: 64, green: 64, blue: 255 }),
            params.color2 == (RenderColor { red: 255, green: 255, blue: 64 }),
            params.color3 == (RenderColor { red: 255, green: 64, blue: 64 }),
    {
        RenderParams {
            color0: RenderColor { red: 0, green: 0, blue: 0 },
            color1: RenderColor { red: 64, green: 64, blue: 255 },
            color2: RenderColor { red: 255, green: 255, blue: 64 },
            color3: RenderColor { red: 255, green: 64, blue: 64 },
        }
    }
}

/// The picture of a grid: three bytes to the cell, red, green and blue, in
/// the order of the cells.
pub fn paint(params: &RenderParams, sand_data: &[u8]) -> (pixels: Vec<u8>)
    requires
        3 * sand_data@.len() <= usize::MAX,
    ensures
        pixels@.len() == 3 * sand_data@.len(),
        forall|i: int|
            0 <= i < sand_data@.len() ==> pixels@[3 * i] == params.shade(
                #[trigger] sand_data@[i],
            ).red && pixels@[3 * i + 1] == params.shade(sand_data@[i]).green && pixels@[3 * i + 2]
                == params.shade(sand_data@[i]).blue,
{
    let n = sand_data.len();
    let mut pixels: Vec<u8> = Vec::with_capacity(3 * n);
    let mut i: usize = 0;
    while i < n
        invariant
            n == sand_data@.len(),
            3 * n <= usize::MAX,
            i <= n,
            pixels@.len() == 3 * i,
            forall|k: int|
                0 <= k < i ==> pixels@[3 * k] == params.shade(#[trigger] sand_data@[k]).red
                    && pixels@[3 * k + 1] == params.shade(sand_data@[k]).green && pixels@[3 * k
                    + 2] == params.shade(sand_data@[k]).blue,
        decreases n - i,
    {
        let color = params.color_of(sand_data[i]);
        pixels.push(color.red);
        pixels.push(color.green);
        pixels.push(color.blue);
        i = i + 1;
    }
    pixels
}

} // verus!
