use vstd::prelude::*;

pub mod grammar;
pub mod rng;
pub mod segments;
pub mod turtle;

verus! {

/// Fixed-point scale: every continuous quantity (coordinates, distances,
/// radians, stroke widths, probabilities) is an `i64` holding the value
/// multiplied by this scale.
pub const FP: i64 = 65536;

/// Largest fixed-point coordinate, distance or viewport extent the turtle
/// accepts; keeps all intermediate products inside `i64`.
pub const MAX_COORD: i64 = 1073741824;

/// Number of forward-move commands consumed per animation batch.
pub const FS_PER_TURTLE_MOVE: usize = 5;

/// Safety cap on rewriting cycles, so a self-referential grammar cannot
/// expand forever.
pub const MAX_GROWTH_CYCLES: usize = 200;

/// Safety cap on whole-grammar generation attempts; past it the generator
/// falls back to a minimal single-move grammar instead of retrying forever.
pub const MAX_GENERATION_ATTEMPTS: usize = 1000;

/// Safety cap on attempts to draw a non-empty random command core; past it
/// the builder falls back to a run of forward-move symbols.
pub const MAX_STRING_ATTEMPTS: usize = 1000;

/// Safety cap on boundary-wrap hops within one forward move, in the spirit
/// of the growth-cycle cap; unreachable for in-range distances and viewports.
pub const MAX_WRAP_HOPS: u64 = 4096;

/// Lower end of the random turn-angle range, in fixed-point radians.
pub const MIN_ANGLE: i64 = 5719;

/// Upper end of the random turn-angle range, in fixed-point radians.
pub const MAX_ANGLE: i64 = 204743;

/// Number of preset "pleasing" turn angles.
pub const NUM_PRESET_ANGLES: usize = 7;

/// The preset turn angles, in fixed-point radians.
pub fn preset_angle(i: usize) -> (r: i64)
    requires
        i < NUM_PRESET_ANGLES,
    ensures
        MIN_ANGLE <= r <= MAX_ANGLE,
{
    match i {
        0 => 22876,
        1 => 34315,
        2 => 41177,
        3 => 51472,
        4 => 68629,
        5 => 102944,
        _ => 154416,
    }
}

/// Configuration for grammar generation and drawing. Counts are plain
/// integers; probabilities, distances and widths are fixed-point (`FP`).
pub struct Parameters {
    pub min_rules: usize,
    pub max_rules: usize,
    pub min_start_length: usize,
    pub max_start_length: usize,
    pub min_rule_length: usize,
    pub max_rule_length: usize,
    pub lsystem_max_length: usize,
    pub random_angle_chance: i64,
    pub distance_per_movement: i64,
    pub line_width: i64,
    pub seconds_per_turtle_move: i64,
    pub seconds_per_fade: i64,
}

/// The ranges the generator draws from must be non-empty and start at one,
/// the probability must be a fixed-point value in [0, 1], and the drawing
/// distance must be positive and in range for the turtle.
pub open spec fn params_wf(p: Parameters) -> bool {
    &&& 1 <= p.min_rules < p.max_rules
    &&& 1 <= p.min_start_length < p.max_start_length
    &&& 1 <= p.min_rule_length < p.max_rule_length
    &&& p.max_start_length <= usize::MAX - 2
    &&& p.max_rule_length <= usize::MAX - 2
    &&& 0 <= p.random_angle_chance <= FP
    &&& 0 < p.distance_per_movement <= MAX_COORD
    &&& 0 < p.line_width
}

impl Parameters {
    pub fn new() -> (r: Parameters)
        ensures
            r.min_rules == 2,
            r.max_rules == 5,
            r.min_start_length == 1,
            r.max_start_length == 5,
            r.min_rule_length == 2,
            r.max_rule_length == 10,
            r.lsystem_max_length == 2000,
            r.random_angle_chance == FP / 2,
            r.distance_per_movement == 10 * FP,
            r.line_width == 49152,
            r.seconds_per_turtle_move == 2621,
            r.seconds_per_fade == 2621,
            params_wf(r),
    {
        Parameters {
            min_rules: 2,
            max_rules: 5,
            min_start_length: 1,
            max_start_length: 5,
            min_rule_length: 2,
            max_rule_length: 10,
            lsystem_max_length: 2000,
            random_angle_chance: 32768,
            distance_per_movement: 655360,
            line_width: 49152,
            seconds_per_turtle_move: 2621,
            seconds_per_fade: 2621,
        }
    }
}

} // verus!
