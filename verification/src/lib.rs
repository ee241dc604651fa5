//! A verified spatial temperature-field sampler.
//!
//! A regular lattice of scalar samples is generated once; each query maps a
//! continuous world position to the enclosing lattice cell, reconstructs a
//! scalar there (bilinear reconstruction on the cell, or inverse-distance
//! weighting over a neighbor window), and maps the scalar to a diverging
//! red/blue color.  All scalars are exact rationals, so every contract pins
//! the computed value down exactly.

use vstd::prelude::*;

pub mod rat;
pub mod coordinate;
pub mod grid;
pub mod interpolate;
pub mod color;
pub mod cube;

pub use rat::Rat;
pub use coordinate::{GameCoor, GridCoor, GridStep, QualitativeRelPos};
pub use grid::{Grid, GridCell};
pub use color::ColorWeights;
pub use cube::{AdjacentCubeQuantity, NearCube};

use crate::rat::{q_wf, q_eq, q_zero, lemma_q_eq_trans};
use crate::color::{compute_color_bloom, red_channel_bloom, blue_channel_bloom,
    bloom_input_modest, lemma_channels_wf, lemma_channels_congr};
use crate::interpolate::{cell_degenerate, cell_interp};

verus! {

impl Grid {
    /// The fused query pipeline: locate the enclosing cell of the probe's
    /// world position, reconstruct the field value there by bilinear
    /// interpolation (zero on a boundary-collapsed cell), and map the
    /// scalar to the probe's high-dynamic-range color.  `None` can arise
    /// only when an intermediate rational leaves the `i64` range; on a
    /// collapsed cell with a modest range the query always answers.
    pub fn query(&self, world: &GameCoor) -> (r: Option<ColorWeights>)
        requires
            self.wf(),
            world.wf(),
        ensures
            ({
                let cell = self.located_cell(*world);
                let value = if cell_degenerate(cell) {
                    q_zero()
                } else {
                    cell_interp(*self, cell, *world)
                };
                &&& r matches Some(c) ==> {
                    &&& c.wf()
                    &&& q_eq(c.red@, red_channel_bloom(value, self.min@, self.max@))
                    &&& q_eq(c.blue@, blue_channel_bloom(value, self.min@, self.max@))
                }
                &&& (cell_degenerate(cell) && bloom_input_modest(self.min@) && bloom_input_modest(
                    self.max@,
                )) ==> r is Some
            }),
    {
        let cell = self.find_nearest_cell(world);
        let temp = match self.interpolate_temperature(&cell, world) {
            Some(t) => t,
            None => {
                return None;
            },
        };
        proof {
            if cell_degenerate(cell) && bloom_input_modest(self.min@) && bloom_input_modest(
                self.max@,
            ) {
                assert(bloom_input_modest(temp@));
            }
        }
        let col = match compute_color_bloom((self.min, self.max), temp) {
            Some(c) => c,
            None => {
                return None;
            },
        };
        proof {
            let ghost value = if cell_degenerate(cell) {
                q_zero()
            } else {
                cell_interp(*self, cell, *world)
            };
            assert(q_wf(value) && q_eq(temp@, value));
            lemma_channels_congr(temp@, value, self.min@, self.max@);
            lemma_channels_wf(temp@, self.min@, self.max@);
            lemma_channels_wf(value, self.min@, self.max@);
            lemma_q_eq_trans(
                col.red@,
                red_channel_bloom(temp@, self.min@, self.max@),
                red_channel_bloom(value, self.min@, self.max@),
            );
            lemma_q_eq_trans(
                col.blue@,
                blue_channel_bloom(temp@, self.min@, self.max@),
                blue_channel_bloom(value, self.min@, self.max@),
            );
        }
        Some(col)
    }
}

} // verus!
