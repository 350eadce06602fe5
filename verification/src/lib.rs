//! A viewing engine for topologically non-Euclidean tile worlds: rooms are
//! connected by one-way "area portals" (rectangular teleport seams that may
//! reorient space), and an observer's egocentric window is resolved cell by
//! cell to true global poses, then lit by shadowcasting.

mod assoc;
mod cardinal;
mod egocentric;
mod egosphere;
mod explore;
mod fov;
mod geom;
mod grid;
mod portals;
mod viewport;

pub use cardinal::lemma_cardinal_reverse_twice;
pub use cardinal::lemma_cardinal_right_four;
pub use cardinal::lemma_cardinal_rotated_compose;
pub use cardinal::lemma_cardinal_rotated_forward;
pub use cardinal::Cardinal;
pub use egocentric::lemma_egocentric_reverse_twice;
pub use egocentric::lemma_egocentric_right_four;
pub use egocentric::lemma_egocentric_rotated_forward;
pub use egocentric::lemma_egocentric_undo;
pub use egocentric::Egocentric;
pub use egosphere::lemma_calculate_deterministic;
pub use egosphere::lemma_resolved_reachable;
pub use egosphere::oracle_of;
pub use egosphere::spec_lit;
pub use egosphere::spec_resolved_map;
pub use egosphere::Egosphere;
pub use geom::EgoPoint;
pub use geom::EgoRect;
pub use geom::EgoSpace;
pub use geom::EgoVec;
pub use geom::GlobalPoint;
pub use geom::GlobalPos;
pub use geom::GlobalSpace;
pub use geom::GlobalVec;
pub use geom::GlobalView;
pub use geom::RoomId;
pub use explore::adjacent;
pub use explore::reach;
pub use portals::lemma_add_area_portal_idempotent;
pub use portals::lemma_add_evicts_overlapping_traps;
pub use portals::lemma_add_registers_traps;
pub use portals::lemma_empty_traps_owned;
pub use portals::lemma_remove_portal_traps_owned;
pub use portals::lemma_seam_keys_disjoint;
pub use portals::lemma_spec_add_traps_owned;
pub use portals::traps_owned;
pub use portals::lemma_add_evicts_overlapping;
pub use portals::lemma_portal_round_trip;
pub use portals::no_portal;
pub use portals::AreaPortal;
pub use portals::Portals;
pub use portals::PortalsV;
pub use viewport::BlockList;
pub use viewport::BlockedQuery;
pub use viewport::NeverBlocked;
pub use viewport::Viewport;
