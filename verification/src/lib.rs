//! Four-stem separation with the HTDemucs network.
//!
//! A track is cut into overlapping segments by the [`demucs::ChunkPlan`], each
//! segment goes through [`model::HtDemucs`], and [`seam::OverlapAdd`] sews the
//! results together. [`separate`] drives the three, given a Fourier transform;
//! [`weights`] opens the bundle that the network is loaded from and [`wav`]
//! reads and writes the audio.
//!
//! The network is computed in any [`arithmetic::Arithmetic`].

pub mod activations;
pub mod adjoint;
pub mod agreement;
pub mod arithmetic;
pub mod attention;
pub mod branches;
pub mod bytes;
pub mod calls;
pub mod channels;
pub mod chunks;
pub mod conv;
pub mod conv_transpose;
pub mod dconv;
pub mod decoder;
pub mod demucs;
pub mod embedding;
pub mod encoder;
pub mod fields;
pub mod index;
pub mod joins;
pub mod layers;
pub mod layout;
pub mod matmul;
pub mod model;
pub mod moments;
pub mod names;
pub mod noise;
pub mod ops;
pub mod order;
pub mod parameters;
pub mod passes;
pub mod pcm;
pub mod residuals;
pub mod rings;
pub mod roster;
pub mod samples;
pub mod scores;
pub mod seam;
pub mod separate;
pub mod stages;
pub mod statistics;
pub mod tensor;
pub mod text;
pub mod tokens;
pub mod transformer;
pub mod wav;
pub mod waves;
pub mod weave;
pub mod weights;
pub mod windows;
