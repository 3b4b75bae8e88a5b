//! Units of measure, the bands they are drawn in, and the colors of series.
use vstd::prelude::*;

verus! {

/// What a series is measured in. Each unit has a band of its own in the graph.
#[derive(Clone, Copy, Debug, PartialEq, Eq, PartialOrd, Ord, Structural)]
pub enum Unit {
    /// Temperature.
    Celsius,
    /// Usage, or fan speed where only a share of the maximum is known.
    Percent,
    /// Fan speed.
    Rpm,
    /// Network throughput.
    NetBytes,
    /// Disk throughput.
    DiskBytes,
}

/// Order in which bands are stacked, top to bottom.
pub const BAND_ORDER: [Unit; 5] = [
    Unit::Celsius,
    Unit::Percent,
    Unit::Rpm,
    Unit::NetBytes,
    Unit::DiskBytes,
];

/// The palette, as red, green and blue in hundredths.
pub const PALETTE: [(u8, u8, u8); 16] = [
    (90, 16, 22),
    (13, 45, 85),
    (18, 68, 35),
    (95, 61, 7),
    (61, 35, 71),
    (9, 64, 72),
    (85, 37, 61),
    (55, 55, 10),
    (40, 40, 45),
    (20, 30, 65),
    (80, 52, 25),
    (16, 70, 55),
    (70, 20, 20),
    (45, 62, 16),
    (30, 50, 90),
    (62, 18, 50),
];

impl Unit {
    /// The title of the unit's band.
    pub open spec fn title_text(self) -> Seq<char> {
        match self {
            Unit::Celsius => "Temperature (°C)"@,
            Unit::Percent => "Usage (%)"@,
            Unit::Rpm => "Fan (RPM)"@,
            Unit::NetBytes => "Network (bytes/s)"@,
            Unit::DiskBytes => "Disk I/O (bytes/s)"@,
        }
    }

    /// What follows a value in the unit.
    pub open spec fn suffix_text(self) -> Seq<char> {
        match self {
            Unit::Celsius => "°C"@,
            Unit::Percent => "%"@,
            Unit::Rpm => "rpm"@,
            Unit::NetBytes => "B/s"@,
            Unit::DiskBytes => "B/s"@,
        }
    }

    /// The place of the unit's band in the stacking order.
    pub open spec fn rank(self) -> int {
        match self {
            Unit::Celsius => 0,
            Unit::Percent => 1,
            Unit::Rpm => 2,
            Unit::NetBytes => 3,
            Unit::DiskBytes => 4,
        }
    }

    /// The title of the unit's band.
    pub fn title(self) -> (r: &'static str)
        ensures
            r@ == self.title_text(),
    {
        match self {
            Unit::Celsius => "Temperature (°C)",
            Unit::Percent => "Usage (%)",
            Unit::Rpm => "Fan (RPM)",
            Unit::NetBytes => "Network (bytes/s)",
            Unit::DiskBytes => "Disk I/O (bytes/s)",
        }
    }

    /// What follows a value in the unit.
    pub fn suffix(self) -> (r: &'static str)
        ensures
            r@ == self.suffix_text(),
    {
        match self {
            Unit::Celsius => "°C",
            Unit::Percent => "%",
            Unit::Rpm => "rpm",
            Unit::NetBytes => "B/s",
            Unit::DiskBytes => "B/s",
        }
    }
}

/// The color that a color index stands for: the palette, over and over.
pub open spec fn palette_color(index: nat) -> (u8, u8, u8) {
    PALETTE@[index as int % 16]
}

/// The color of the series with this color index, as red, green and blue in
/// hundredths. The palette is cycled if there are more series than colors.
pub fn color_for(index: usize) -> (r: (u8, u8, u8))
    ensures
        r == palette_color(index as nat),
{
    PALETTE[index % 16]
}

/// The palette is cycled.
pub proof fn lemma_palette_cycles(index: nat)
    ensures
        palette_color(index + 16) == palette_color(index),
{
}

/// Among sixteen series that were found one after the other, no two have the same
/// color.
pub proof fn lemma_neighbors_differ_in_color(a: nat, b: nat)
    requires
        a < b < a + 16,
    ensures
        palette_color(a) != palette_color(b),
{
    let i = a as int % 16;
    let j = b as int % 16;
    assert(i != j);
    assert(PALETTE@[i] != PALETTE@[j]);
}

/// Every unit has one place in the stacking order.
pub proof fn lemma_every_unit_has_a_band(u: Unit, i: int)
    requires
        0 <= i < BAND_ORDER@.len(),
    ensures
        0 <= u.rank() < BAND_ORDER@.len(),
        BAND_ORDER@[i] == u <==> i == u.rank(),
{
}

/// Every band has the title of its unit, and every value the sign of its unit.
pub proof fn lemma_titles_and_suffixes()
    ensures
        Unit::Celsius.title_text() == "Temperature (°C)"@,
        Unit::Percent.title_text() == "Usage (%)"@,
        Unit::Rpm.title_text() == "Fan (RPM)"@,
        Unit::NetBytes.title_text() == "Network (bytes/s)"@,
        Unit::DiskBytes.title_text() == "Disk I/O (bytes/s)"@,
        Unit::Celsius.suffix_text() == "°C"@,
        Unit::Percent.suffix_text() == "%"@,
        Unit::Rpm.suffix_text() == "rpm"@,
        Unit::NetBytes.suffix_text() == "B/s"@,
        Unit::DiskBytes.suffix_text() == "B/s"@,
{
}

/// Temperatures are at the top, then usage, fans, the network and the disks.
pub proof fn lemma_stacking_order()
    ensures
        Unit::Celsius.rank() < Unit::Percent.rank() < Unit::Rpm.rank() < Unit::NetBytes.rank()
            < Unit::DiskBytes.rank(),
        BAND_ORDER@ == seq![
            Unit::Celsius,
            Unit::Percent,
            Unit::Rpm,
            Unit::NetBytes,
            Unit::DiskBytes,
        ],
{
    assert(BAND_ORDER@ =~= seq![
        Unit::Celsius,
        Unit::Percent,
        Unit::Rpm,
        Unit::NetBytes,
        Unit::DiskBytes,
    ]);
}

/// The sixteen colors of the palette are given out in order, and then over again.
pub proof fn lemma_palette_in_order(round: nat)
    ensures
        palette_color(16 * round) == (90u8, 16u8, 22u8),
        palette_color(16 * round + 1) == (13u8, 45u8, 85u8),
        palette_color(16 * round + 2) == (18u8, 68u8, 35u8),
        palette_color(16 * round + 3) == (95u8, 61u8, 7u8),
        palette_color(16 * round + 4) == (61u8, 35u8, 71u8),
        palette_color(16 * round + 5) == (9u8, 64u8, 72u8),
        palette_color(16 * round + 6) == (85u8, 37u8, 61u8),
        palette_color(16 * round + 7) == (55u8, 55u8, 10u8),
        palette_color(16 * round + 8) == (40u8, 40u8, 45u8),
        palette_color(16 * round + 9) == (20u8, 30u8, 65u8),
        palette_color(16 * round + 10) == (80u8, 52u8, 25u8),
        palette_color(16 * round + 11) == (16u8, 70u8, 55u8),
        palette_color(16 * round + 12) == (70u8, 20u8, 20u8),
        palette_color(16 * round + 13) == (45u8, 62u8, 16u8),
        palette_color(16 * round + 14) == (30u8, 50u8, 90u8),
        palette_color(16 * round + 15) == (62u8, 18u8, 50u8),
{
}

} // verus!
