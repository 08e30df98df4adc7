//! Which setting counts.
use crate::auth::FaceAuth;
use crate::config::{
    config_files, layered, or_default, tags_ignore_directories, FaceAuthConfig,
    DEFAULT_DETECTOR_THRESHOLD_BITS, DEFAULT_MOTION_THRESHOLD_BITS, DEFAULT_THRESHOLD_BITS,
};
use crate::float32::{one, steps, Float32};
use crate::float_laws::distance;
use crate::inference::{chosen_backend, Backend};
use crate::paths::joined;
use crate::storage::text_of;
use crate::text_laws::plain_name;
use vstd::arithmetic::power2::*;
use vstd::prelude::*;

verus! {

/// What is set counts before what was found, and that before the default.
pub proof fn settings_come_first(set: Seq<char>, found: Seq<char>, default: Seq<char>)
    ensures
        layered(Some(set), Some(found), default) == set,
        layered(Some(set), None, default) == set,
        layered(None, Some(found), default) == found,
        layered(None, None, default) == default,
{
}

/// A default stands in for a setting only where there is none.
pub proof fn defaults_come_last<T>(set: T, default: T)
    ensures
        or_default(Some(set), default) == set,
        or_default(None, default) == default,
{
}

/// The user's file is read after the system's, so that it is stronger, and only files that are
/// there are read.
pub proof fn the_users_file_is_stronger(system: bool, dir: Option<Seq<char>>, user: bool)
    ensures
        ({
            let files = config_files(system, dir, user);
            &&& files.len() == (if system {
                1int
            } else {
                0
            }) + (if dir is Some && user {
                1int
            } else {
                0
            })
            &&& system ==> files[0] == "/etc/face-auth.toml"@
            &&& dir is Some && user ==> files.last() == joined(dir->0, "face-auth.toml"@)
        }),
{
}

/// A camera is pinned only by its bus path and its index together; one of them alone pins
/// nothing.
pub proof fn pinning_takes_path_and_index(config: FaceAuthConfig)
    ensures
        config.pinned() is Some <==> config.pinned_camera_path is Some
            && config.pinned_camera_index is Some,
        config.pinned() matches Some((path, index)) ==> {
            &&& config.pinned_camera_path matches Some(p) && p@ == path
            &&& config.pinned_camera_index == Some(index)
        },
{
}

/// The default thresholds: a similarity of 0.6, a face score of a half, and motion in a
/// hundredth of the pixels, the first and the last up to rounding.
pub proof fn default_thresholds()
    ensures
        0x10_0000 * distance(
            10 * (Float32 { bits: DEFAULT_THRESHOLD_BITS }).signed_steps(),
            6 * one() as int,
        ) <= one(),
        2 * (Float32 { bits: DEFAULT_DETECTOR_THRESHOLD_BITS }).signed_steps() == one(),
        0x10_0000 * distance(
            100 * (Float32 { bits: DEFAULT_MOTION_THRESHOLD_BITS }).signed_steps(),
            one() as int,
        ) <= one(),
{
    let a = Float32 { bits: DEFAULT_THRESHOLD_BITS };
    let b = Float32 { bits: DEFAULT_DETECTOR_THRESHOLD_BITS };
    let c = Float32 { bits: DEFAULT_MOTION_THRESHOLD_BITS };
    lemma_pow2_adds(24, 125);
    lemma_pow2_adds(30, 119);
    lemma_pow2_pos(119);
    lemma_pow2_pos(125);
    lemma2_to64();
    assert(a.magnitude() == 0x3f19_999a && b.magnitude() == 0x3f00_0000 && c.magnitude()
        == 0x3c23_d70a);
    assert(steps(0x3f19_999a) == 0x99_999a * pow2(125));
    assert(steps(0x3f00_0000) == 0x80_0000 * pow2(125));
    assert(steps(0x3c23_d70a) == 0xa3_d70a * pow2(119));
}

/// Where a camera is pinned, only the one with that bus path and that index is trusted, and none
/// whose identity is unknown; where none is pinned, every one is.
pub proof fn only_the_pinned_camera_is_trusted(
    auth: FaceAuth,
    path: String,
    index: u32,
    identity: Option<(Seq<char>, u32)>,
)
    ensures
        auth.config.pinned_camera_path == Some(path) && auth.config.pinned_camera_index == Some(
            index,
        ) ==> (auth.trusts(identity) <==> identity == Some((path@, index))),
        auth.config.pinned_camera_path is None || auth.config.pinned_camera_index is None
            ==> auth.trusts(identity),
{
}

/// The tag of a model is the name of its file: two copies of one file in different directories
/// have one tag, and files of different names have different ones.
pub proof fn tags_are_file_names(
    auth: FaceAuth,
    dir: Seq<char>,
    other: Seq<char>,
    name: Seq<char>,
    renamed: Seq<char>,
)
    requires
        text_of(auth.config.model_path) is None,
        plain_name(name),
        plain_name(renamed),
    ensures
        auth.tag(Some(joined(dir, name))) == name,
        auth.tag(Some(joined(dir, name))) == auth.tag(Some(joined(other, name))),
        name != renamed ==> auth.tag(Some(joined(dir, name))) != auth.tag(
            Some(joined(other, renamed)),
        ),
{
    tags_ignore_directories(dir, other, name);
    tags_ignore_directories(other, dir, renamed);
}

/// A model that is set counts before the one in the environment.
pub proof fn set_models_come_first(auth: FaceAuth, env: Option<Seq<char>>)
    requires
        text_of(auth.config.model_path) is Some,
    ensures
        auth.tag(env) == auth.tag(None),
{
}

/// One name alone asks for a backend that is not there.
pub proof fn every_other_backend_is_the_processor(name: Seq<char>)
    ensures
        chosen_backend(name) is None <==> name == "openvino"@,
        chosen_backend(name) matches Some(b) ==> b == Backend::Tract,
{
}

} // verus!
