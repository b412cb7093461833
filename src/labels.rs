use vstd::prelude::*;

verus! {

/// Number of congestion buckets: {0}, {1-20}, {21-50}, {51-100}, {101-200}, {201-400}, {401+}.
pub const BUCKET_COUNT: usize = 7;

/// The bucket that a traversal count falls into.
pub open spec fn bucket_of(c: int) -> int {
    if c <= 0 {
        0
    } else if c <= 20 {
        1
    } else if c <= 50 {
        2
    } else if c <= 100 {
        3
    } else if c <= 200 {
        4
    } else if c <= 400 {
        5
    } else {
        6
    }
}

/// Index of the histogram bucket that holds `congestion`.
pub fn congestion_range_index(congestion: u32) -> (r: usize)
    ensures
        r as int == bucket_of(congestion as int),
        r < BUCKET_COUNT,
{
    if congestion == 0 {
        0
    } else if congestion <= 20 {
        1
    } else if congestion <= 50 {
        2
    } else if congestion <= 100 {
        3
    } else if congestion <= 200 {
        4
    } else if congestion <= 400 {
        5
    } else {
        6
    }
}

/// Bucket indices never decrease as the count grows, and every count has one.
pub proof fn lemma_bucket_monotonic(a: int, b: int)
    requires
        0 <= a <= b,
    ensures
        bucket_of(a) <= bucket_of(b),
        0 <= bucket_of(a) < BUCKET_COUNT,
{
}

/// The display colour of each bucket, as red, green and blue.
pub open spec fn bucket_color(k: int) -> (u8, u8, u8) {
    if k == 0 {
        (0x61u8, 0x61u8, 0x61u8)
    } else if k == 1 {
        (0x00u8, 0x7au8, 0xf5u8)
    } else if k == 2 {
        (0x14u8, 0xaeu8, 0x52u8)
    } else if k == 3 {
        (0xffu8, 0xc1u8, 0x07u8)
    } else if k == 4 {
        (0xecu8, 0x6fu8, 0x27u8)
    } else if k == 5 {
        (0xe4u8, 0x37u8, 0x48u8)
    } else {
        (0x91u8, 0x54u8, 0xffu8)
    }
}

/// Colour used to draw a room or passage traversed `congestion` times.
pub fn congestion_color_rgb(congestion: u32) -> (r: (u8, u8, u8))
    ensures
        r == bucket_color(bucket_of(congestion as int)),
{
    match congestion_range_index(congestion) {
        0 => (0x61, 0x61, 0x61),
        1 => (0x00, 0x7a, 0xf5),
        2 => (0x14, 0xae, 0x52),
        3 => (0xff, 0xc1, 0x07),
        4 => (0xec, 0x6f, 0x27),
        5 => (0xe4, 0x37, 0x48),
        _ => (0x91, 0x54, 0xff),
    }
}

/// Name of a weekday numbered from 1 (Monday) to 5 (Friday).
pub open spec fn day_label(day: u32) -> Seq<char> {
    if day == 1 {
        "Monday"@
    } else if day == 2 {
        "Tuesday"@
    } else if day == 3 {
        "Wednesday"@
    } else if day == 4 {
        "Thursday"@
    } else if day == 5 {
        "Friday"@
    } else {
        "Unknown"@
    }
}

pub fn convert_day_of_week(day: u32) -> (r: String)
    ensures
        r@ == day_label(day),
{
    let s: &str = if day == 1 {
        "Monday"
    } else if day == 2 {
        "Tuesday"
    } else if day == 3 {
        "Wednesday"
    } else if day == 4 {
        "Thursday"
    } else if day == 5 {
        "Friday"
    } else {
        "Unknown"
    };
    s.to_owned()
}

/// Name of one of the twelve slots of a school day, between lessons.
pub open spec fn period_label(index: usize) -> Seq<char> {
    if index == 0 {
        "Before P1"@
    } else if index == 1 {
        "P1\u{2013}P2"@
    } else if index == 2 {
        "P2\u{2013}P3"@
    } else if index == 3 {
        "P3\u{2013}P4"@
    } else if index == 4 {
        "P4\u{2013}P5"@
    } else if index == 5 {
        "P5\u{2013}P6"@
    } else if index == 6 {
        "P6\u{2013}Lunch"@
    } else if index == 7 {
        "Lunch\u{2013}P7"@
    } else if index == 8 {
        "P7\u{2013}P8"@
    } else if index == 9 {
        "P8\u{2013}P9"@
    } else if index == 10 {
        "P9\u{2013}P10"@
    } else if index == 11 {
        "After P10"@
    } else {
        "Unknown"@
    }
}

pub fn convert_periods(index: usize) -> (r: String)
    ensures
        r@ == period_label(index),
{
    let s: &str = if index == 0 {
        "Before P1"
    } else if index == 1 {
        "P1\u{2013}P2"
    } else if index == 2 {
        "P2\u{2013}P3"
    } else if index == 3 {
        "P3\u{2013}P4"
    } else if index == 4 {
        "P4\u{2013}P5"
    } else if index == 5 {
        "P5\u{2013}P6"
    } else if index == 6 {
        "P6\u{2013}Lunch"
    } else if index == 7 {
        "Lunch\u{2013}P7"
    } else if index == 8 {
        "P7\u{2013}P8"
    } else if index == 9 {
        "P8\u{2013}P9"
    } else if index == 10 {
        "P9\u{2013}P10"
    } else if index == 11 {
        "After P10"
    } else {
        "Unknown"
    };
    s.to_owned()
}

} // verus!
