//! Core of an infrared face-unlock service.
//!
//! Frames come from an infrared camera, are equalized, searched for a face, cropped and
//! normalized for a recognition network; the resulting embedding is matched against the
//! enrolled ones. This crate holds everything that is decided and computed on the way. What
//! talks to the kernel, to the file system and to the networks is left to its users.
pub mod attempt_laws;
pub mod auth;
pub mod blend_laws;
pub mod camera;
pub mod camera_laws;
pub mod capture;
pub mod capture_laws;
pub mod codec;
pub mod config;
pub mod contrast_laws;
pub mod crop_laws;
pub mod decode_laws;
pub mod detector;
pub mod detector_laws;
pub mod devices;
pub mod diag;
pub mod enroll;
pub mod equalize;
pub mod equalize_laws;
pub mod error;
pub mod float32;
pub mod float_laws;
pub mod flow_laws;
pub mod inference;
pub mod level_laws;
pub mod listing_laws;
pub mod lockout;
pub mod lockout_laws;
pub mod nearest_laws;
pub mod paths;
pub mod photo;
pub mod pixel_laws;
pub mod preprocess;
pub mod preprocess_laws;
pub mod resample;
pub mod rounding;
pub mod scan;
pub mod settings_laws;
pub mod similarity_laws;
pub mod square_root;
pub mod statistics;
pub mod statistics_laws;
pub mod storage;
pub mod storage_laws;
pub mod text;
pub mod text_laws;
pub mod variance_laws;
pub mod verify;
pub mod window_laws;

pub use crate::auth::FaceAuth;
pub use crate::capture::Camera;
pub use crate::config::FaceAuthConfig;
