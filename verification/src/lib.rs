//! The control side of an advanced spectral extension (A-SPX) decoder.
//!
//! The extension rebuilds the upper part of a spectrum from its lower part and a
//! small amount of control data. This library derives everything that follows
//! from the control data alone: the tables and intervals of a configuration, the
//! parsed elements of a stream, their scale factors, and a plan for every frame
//! that says which timeslots and subbands each signal tool works on.

pub mod bands;
pub mod binary32;
pub mod codebooks;
pub mod dequant;
pub mod element;
pub mod envelope;
pub mod frames;
pub mod hfgain;
pub mod hfgen;
pub mod huffman;
pub mod patches;
pub mod payload;
pub mod pipeline;
pub mod plans;
pub mod positions;
pub mod preflatten;
pub mod qmf;
pub mod reach;
pub mod reader;
pub mod spelling;
pub mod syntax;
pub mod tables;

pub use bands::{AspxBandTables, BandError, MAX_SBG_SIG_LOWRES};
pub use element::AspxData;
pub use frames::{
    AspxInterval, AspxIntervalParams, FrameError, MAX_ATSG_NOISE, MAX_ATSG_SIG, MAX_REL_BORDERS,
};
pub use payload::AspxEnvelopes;
pub use reach::{collect_aspx_reach, AspxReach};
pub use syntax::{
    AspxChannelFraming, AspxConfig, AspxError, AspxHfGen, AspxState, MAX_SBG_PER_ENVELOPE,
};
pub use tables::{
    get_aspx_hcb, num_aspx_timeslots, num_qmf_timeslots, num_ts_in_ats, sbg_template,
    template_group_count, ts_offset_hfgen, AspxCodebook, EnvelopeKind, HcbType, IntervalClass,
    StereoMode, MAX_ASPX_TIMESLOTS, MAX_SBG_MASTER, MAX_SBG_NOISE, NUM_QMF_SUBBANDS,
};
