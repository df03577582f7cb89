//! Mental-poker toolkit over the BN254 G1 group: threshold ElGamal, Pedersen
//! commitments, a Fiat–Shamir transcript, the sigma protocols and the zero
//! argument that let players prove each step, and the Barnett–Smart card
//! protocol built on them.
//!
//! Field elements and points are held as plain canonical bytes; the curve
//! library computes the group operations, whose results the contracts name.
//! `algebra` states the laws of a group of prime order over those names; the
//! completeness and soundness lemmas take them as their premise.
pub mod algebra;
pub mod chaum_pedersen_dl_equality;
pub mod discrete_log_cards;
pub mod el_gamal;
pub mod encoding;
pub mod error;
pub mod field;
pub mod group;
pub mod pedersen;
pub mod playing_cards;
pub mod schnorr_identification;
pub mod transcript;
pub mod zero_value_bilinear_map;
