//! Packed RGB565 colors with saturating components.

use vstd::prelude::*;

verus! {

/// Packed color value.
#[derive(Clone, Copy, Debug, PartialEq, Eq, Structural)]
pub struct Color {
    /// Red, green, and blue components packed in an RGB565 format.
    rgb565: u16,
}

/// Expands a channel that is `bits` wide to eight bits: zero stays zero, any
/// other value has its missing low bits filled with ones.
pub open spec fn widen(field: int, bits: int) -> int {
    if field == 0 {
        0
    } else if bits == 5 {
        field * 8 + 7
    } else {
        field * 4 + 3
    }
}

/// Pure model of channel-wise multiplication of two channels that are
/// `2^bits` levels deep, where the top level stands for one.
pub open spec fn scale(a: int, b: int, levels: int) -> int {
    ((a + 1) * (b + 1) - 1) / levels
}

impl Color {
    /// Blue color.
    pub fn pure_blue() -> (color: Color)
        ensures
            color.packed() == 0x1F,
    {
        Color { rgb565: 0x1F }
    }

    /// Green color.
    pub fn pure_green() -> (color: Color)
        ensures
            color.packed() == 0x7E0,
    {
        Color { rgb565: 0x7E0 }
    }

    /// Red color.
    pub fn pure_red() -> (color: Color)
        ensures
            color.packed() == 0xF800,
    {
        Color { rgb565: 0xF800 }
    }

    /// The packed 16-bit value.
    pub closed spec fn packed(self) -> u16 {
        self.rgb565
    }

    /// The five-bit red channel.
    pub open spec fn red_field(self) -> int {
        self.packed() as int / 2048
    }

    /// The six-bit green channel.
    pub open spec fn green_field(self) -> int {
        (self.packed() as int / 32) % 64
    }

    /// The five-bit blue channel.
    pub open spec fn blue_field(self) -> int {
        self.packed() as int % 32
    }

    /// Creates a color from eight-bit components, dropping the low bits that
    /// the packed format has no room for.
    pub fn from_components(red: u8, green: u8, blue: u8) -> (color: Color)
        ensures
            color.red_field() == red as int / 8,
            color.green_field() == green as int / 4,
            color.blue_field() == blue as int / 8,
    {
        let r: u16 = red as u16;
        let g: u16 = green as u16;
        let b: u16 = blue as u16;
        let rgb565: u16 = ((r & 0xF8) << 8) | ((g & 0xFC) << 3) | ((b & 0xF8) >> 3);
        assert(rgb565 / 2048 == r / 8 && (rgb565 / 32) % 64 == g / 4 && rgb565 % 32 == b / 8)
            by (bit_vector)
            requires
                r < 256,
                g < 256,
                b < 256,
                rgb565 == ((r & 0xF8) << 8) | ((g & 0xFC) << 3) | ((b & 0xF8) >> 3),
        ;
        Color { rgb565 }
    }

    /// Returns the color's red component.
    pub fn red(&self) -> (res: u8)
        ensures
            res == widen(self.red_field(), 5),
    {
        let p: u16 = self.rgb565;
        let res: u8 = ((p & 0xF800) >> 8) as u8;
        assert(((p & 0xF800) >> 8) < 256 && ((p & 0xF800) >> 8) == (p / 2048) * 8 && ((p & 0xF800)
            >> 8) | 7 == (p / 2048) * 8 + 7) by (bit_vector);
        if res > 0 {
            assert(res | 7 == res + 7) by (bit_vector)
                requires
                    res % 8 == 0,
            ;
            return res | 0x7;
        }
        0
    }

    /// Returns the color's green component.
    pub fn green(&self) -> (res: u8)
        ensures
            res == widen(self.green_field(), 6),
    {
        let p: u16 = self.rgb565;
        let res: u8 = ((p & 0x7E0) >> 3) as u8;
        assert(((p & 0x7E0) >> 3) < 256 && ((p & 0x7E0) >> 3) == ((p / 32) % 64) * 4)
            by (bit_vector);
        if res > 0 {
            assert(res | 3 == res + 3) by (bit_vector)
                requires
                    res % 4 == 0,
            ;
            return res | 0x3;
        }
        0
    }

    /// Returns the color's blue component.
    pub fn blue(&self) -> (res: u8)
        ensures
            res == widen(self.blue_field(), 5),
    {
        let p: u16 = self.rgb565;
        let res: u8 = ((p & 0x1F) << 3) as u8;
        assert(((p & 0x1F) << 3) < 256 && ((p & 0x1F) << 3) == (p % 32) * 8) by (bit_vector);
        if res > 0 {
            assert(res | 7 == res + 7) by (bit_vector)
                requires
                    res % 8 == 0,
            ;
            return res | 0x7;
        }
        0
    }

    /// Returns the packed 16-bit RGB565 value representing the color.
    pub fn into_inner(self) -> (res: u16)
        ensures
            res == self.packed(),
    {
        self.rgb565
    }

    /// The sum of two colors: each component is the sum of the two, as
    /// eight-bit values, and stops at the largest.
    pub open spec fn plus(self, other: Color) -> (int, int, int) {
        (
            saturate(widen(self.red_field(), 5) + widen(other.red_field(), 5)) / 8,
            saturate(widen(self.green_field(), 6) + widen(other.green_field(), 6)) / 4,
            saturate(widen(self.blue_field(), 5) + widen(other.blue_field(), 5)) / 8,
        )
    }

    /// The product of two colors: each channel, with its highest level taken
    /// as one, is the product of the two.
    pub open spec fn times(self, other: Color) -> (int, int, int) {
        (
            scale(self.red_field(), other.red_field(), 32),
            scale(self.green_field(), other.green_field(), 64),
            scale(self.blue_field(), other.blue_field(), 32),
        )
    }

    /// The three channels of the color.
    pub open spec fn fields(self) -> (int, int, int) {
        (self.red_field(), self.green_field(), self.blue_field())
    }

    /// The color with the given three channels.
    pub closed spec fn of_fields(fields: (int, int, int)) -> Color {
        Color { rgb565: (fields.0 * 2048 + fields.1 * 32 + fields.2) as u16 }
    }

    /// A color is the color with its three channels.
    pub proof fn lemma_fields(self)
        ensures
            self == Color::of_fields(self.fields()),
            0 <= self.red_field() < 32,
            0 <= self.green_field() < 64,
            0 <= self.blue_field() < 32,
    {
        let p = self.rgb565 as int;
        assert(p == (p / 2048) * 2048 + ((p / 32) % 64) * 32 + p % 32);
    }
}

/// An eight-bit sum that stops at the largest value.
pub open spec fn saturate(sum: int) -> int {
    if sum > 255 {
        255
    } else {
        sum
    }
}

impl Default for Color {
    /// The color whose components are all zero.
    fn default() -> (color: Color)
        ensures
            color.packed() == 0,
    {
        Color { rgb565: 0 }
    }
}

impl core::ops::AddAssign for Color {
    fn add_assign(&mut self, other: Color)
        ensures
            final(self).fields() == old(self).plus(other),
    {
        *self = self.plus_color(other);
    }
}

impl core::ops::MulAssign for Color {
    fn mul_assign(&mut self, other: Color)
        ensures
            final(self).fields() == old(self).times(other),
    {
        *self = self.times_color(other);
    }
}

impl core::ops::Add for Color {
    type Output = Color;

    fn add(self, other: Color) -> (sum: Color) {
        let sum = self.plus_color(other);
        proof {
            sum.lemma_fields();
        }
        sum
    }
}

impl vstd::std_specs::ops::AddSpecImpl for Color {
    open spec fn obeys_add_spec() -> bool {
        true
    }

    open spec fn add_req(self, other: Color) -> bool {
        true
    }

    open spec fn add_spec(self, other: Color) -> Color {
        Color::of_fields(self.plus(other))
    }
}

impl core::ops::Mul for Color {
    type Output = Color;

    fn mul(self, other: Color) -> (product: Color) {
        let product = self.times_color(other);
        proof {
            product.lemma_fields();
        }
        product
    }
}

impl vstd::std_specs::ops::MulSpecImpl for Color {
    open spec fn obeys_mul_spec() -> bool {
        true
    }

    open spec fn mul_req(self, other: Color) -> bool {
        true
    }

    open spec fn mul_spec(self, other: Color) -> Color {
        Color::of_fields(self.times(other))
    }
}

impl Color {
    /// Adds two colors component by component; a component stops at its
    /// largest value.
    pub fn plus_color(self, other: Color) -> (sum: Color)
        ensures
            sum.fields() == self.plus(other),
    {
        Color::from_components(
            self.red().saturating_add(other.red()),
            self.green().saturating_add(other.green()),
            self.blue().saturating_add(other.blue()),
        )
    }

    /// Multiplies two colors channel by channel.
    pub fn times_color(self, other: Color) -> (product: Color)
        ensures
            product.fields() == self.times(other),
    {
        let s: u16 = self.rgb565;
        let o: u16 = other.rgb565;
        assert((s >> 11) == s / 2048 && ((s >> 5) & 0x3F) == (s / 32) % 64 && (s & 0x1F) == s % 32)
            by (bit_vector);
        assert((o >> 11) == o / 2048 && ((o >> 5) & 0x3F) == (o / 32) % 64 && (o & 0x1F) == o % 32)
            by (bit_vector);
        let sred: u16 = (s >> 11) + 1;
        let sgreen: u16 = ((s >> 5) & 0x3F) + 1;
        let sblue: u16 = (s & 0x1F) + 1;
        let ored: u16 = (o >> 11) + 1;
        let ogreen: u16 = ((o >> 5) & 0x3F) + 1;
        let oblue: u16 = (o & 0x1F) + 1;
        assert(sred * ored <= 1024 && sgreen * ogreen <= 4096 && sblue * oblue <= 1024)
            by (nonlinear_arith)
            requires
                1 <= sred <= 32,
                1 <= ored <= 32,
                1 <= sgreen <= 64,
                1 <= ogreen <= 64,
                1 <= sblue <= 32,
                1 <= oblue <= 32,
        ;
        assert(sred * ored >= 1 && sgreen * ogreen >= 1 && sblue * oblue >= 1) by (nonlinear_arith)
            requires
                1 <= sred,
                1 <= ored,
                1 <= sgreen,
                1 <= ogreen,
                1 <= sblue,
                1 <= oblue,
        ;
        let pr: u16 = sred * ored - 1;
        let pg: u16 = sgreen * ogreen - 1;
        let pb: u16 = sblue * oblue - 1;
        let red: u16 = (pr << 6) & 0xF800;
        let green: u16 = (pg >> 1) & 0x7E0;
        let blue: u16 = pb >> 5;
        let rgb565: u16 = red | green | blue;
        assert(rgb565 / 2048 == pr / 32 && (rgb565 / 32) % 64 == pg / 64 && rgb565 % 32 == pb / 32)
            by (bit_vector)
            requires
                pr < 1024,
                pg < 4096,
                pb < 1024,
                rgb565 == ((pr << 6) & 0xF800) | ((pg >> 1) & 0x7E0) | (pb >> 5),
        ;
        Color { rgb565 }
    }
}

} // verus!
