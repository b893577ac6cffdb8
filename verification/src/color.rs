//! Color management: ICC profiles and RGBA8 buffer conversion between them.
//! Profiles are parsed and conversions computed by lcms2; this module keeps
//! track of where each profile came from and checks buffer shapes.

use vstd::prelude::*;

verus! {

/// Why a color profile or transform could not be built.
#[derive(Debug, Clone, PartialEq, Eq)]
pub enum ColorError {
    /// The bytes are not a valid ICC profile.
    BadProfile(String),
    /// No transform between the two profiles.
    BadTransform(String),
}

/// Rendering intent.
#[derive(Debug, Clone, Copy, PartialEq, Eq, Structural)]
pub enum Intent {
    Perceptual,
    RelativeColorimetric,
    Saturation,
    AbsoluteColorimetric,
}

impl Default for Intent {
    /// Perceptual.
    fn default() -> (r: Intent)
        ensures
            r == Intent::Perceptual,
    {
        Intent::Perceptual
    }
}

/// `lcms2::Profile`, carried as an opaque handle.
#[verifier::external_type_specification]
#[verifier::external_body]
#[verifier::reject_recursive_types(C)]
pub struct ExLcmsProfile<C>(lcms2::Profile<C>);

/// `lcms2::GlobalContext`, the context the profiles here are made in.
#[verifier::external_type_specification]
#[verifier::external_body]
pub struct ExGlobalContext(lcms2::GlobalContext);

/// Where a profile came from: the built-in sRGB space, or ICC bytes.
pub enum ProfileView {
    Srgb,
    Icc(Seq<u8>),
}

/// An ICC color profile.
pub struct ColorProfile {
    handle: lcms2::Profile,
    source: Ghost<ProfileView>,
}

impl View for ColorProfile {
    type V = ProfileView;

    closed spec fn view(&self) -> ProfileView {
        self.source@
    }
}

/// Whether lcms2 accepts `bytes` as an ICC profile.
pub uninterp spec fn icc_accepted(bytes: Seq<u8>) -> bool;

/// What lcms2 turns the interleaved RGBA8 pixels `px` into when converting
/// from profile `src` to `dst` with `intent`; `None` when it cannot build
/// that transform.
pub uninterp spec fn rgba8_converted(src: ProfileView, dst: ProfileView, intent: Intent, px: Seq<u8>) -> Option<Seq<u8>>;

/// `lcms2::Profile::new_srgb`: the built-in sRGB profile.
#[verifier::external_body]
fn lcms_srgb() -> lcms2::Profile {
    lcms2::Profile::new_srgb()
}

/// `lcms2::Profile::new_icc`: parse ICC bytes, with the error's message on
/// failure. Acceptance depends on the bytes alone; empty input is refused
/// before parsing.
#[verifier::external_body]
fn lcms_icc(bytes: &[u8]) -> (r: Result<lcms2::Profile, String>)
    ensures
        r is Ok <==> icc_accepted(bytes@),
        bytes@.len() == 0 ==> r is Err,
{
    match lcms2::Profile::new_icc(bytes) {
        Ok(p) => Ok(p),
        Err(e) => Err(e.to_string()),
    }
}

/// `lcms2::Transform::<u8, u8>::new` from `src` to `dst` with `RGBA_8` on
/// both sides, then `transform_in_place` on `pixels`; the transform's error
/// message when it cannot be built, the pixels then untouched. The alpha
/// byte of each pixel is an extra channel: in place and without
/// `FLAGS_COPY_ALPHA` it is neither read nor written. `transform_in_place`
/// panics unless the bytes are whole pixels.
#[verifier::external_body]
fn lcms_convert(pixels: &mut [u8], src: &ColorProfile, dst: &ColorProfile, intent: Intent) -> (r: Result<(), String>)
    requires
        old(pixels)@.len() % 4 == 0,
    ensures
        final(pixels)@.len() == old(pixels)@.len(),
        r is Ok ==> rgba8_converted(src@, dst@, intent, old(pixels)@) == Some(final(pixels)@),
        r is Err ==> rgba8_converted(src@, dst@, intent, old(pixels)@) is None && final(pixels)@ == old(pixels)@,
        forall|i: int| 0 <= i < old(pixels)@.len() && i % 4 == 3 ==> #[trigger] final(pixels)@[i] == old(pixels)@[i],
{
    let lcms_intent = match intent {
        Intent::Perceptual => lcms2::Intent::Perceptual,
        Intent::RelativeColorimetric => lcms2::Intent::RelativeColorimetric,
        Intent::Saturation => lcms2::Intent::Saturation,
        Intent::AbsoluteColorimetric => lcms2::Intent::AbsoluteColorimetric,
    };
    let f = lcms2::PixelFormat::RGBA_8;
    match lcms2::Transform::<u8, u8>::new(&src.handle, f, &dst.handle, f, lcms_intent) {
        Ok(t) => Ok(t.transform_in_place(pixels)),
        Err(e) => Err(e.to_string()),
    }
}

impl ColorProfile {
    /// Built-in sRGB, the documents' default working space.
    pub fn srgb() -> (r: ColorProfile)
        ensures
            r@ == ProfileView::Srgb,
    {
        ColorProfile { handle: lcms_srgb(), source: Ghost(ProfileView::Srgb) }
    }

    /// Parse an ICC profile from raw bytes (as embedded in a PNG or TIFF);
    /// `BadProfile` when lcms2 does not accept them.
    pub fn from_icc(bytes: &[u8]) -> (r: Result<ColorProfile, ColorError>)
        ensures
            r is Ok <==> icc_accepted(bytes@),
            r matches Ok(p) ==> p@ == ProfileView::Icc(bytes@),
            r is Err ==> r matches Err(ColorError::BadProfile(_)),
            bytes@.len() == 0 ==> r is Err,
    {
        match lcms_icc(bytes) {
            Ok(handle) => Ok(ColorProfile { handle, source: Ghost(ProfileView::Icc(bytes@)) }),
            Err(msg) => Err(ColorError::BadProfile(msg)),
        }
    }
}

/// Convert an interleaved RGBA8 buffer in place from `src` to `dst` space.
/// On success the pixels are lcms2's conversion of them; alpha bytes pass
/// through untouched. `BadTransform` when no transform between the profiles
/// can be built, the pixels then unchanged.
pub fn convert_rgba8(pixels: &mut [u8], src: &ColorProfile, dst: &ColorProfile, intent: Intent) -> (r: Result<(), ColorError>)
    requires
        old(pixels)@.len() % 4 == 0,
    ensures
        final(pixels)@.len() == old(pixels)@.len(),
        r is Ok <==> rgba8_converted(src@, dst@, intent, old(pixels)@) is Some,
        r is Ok ==> Some(final(pixels)@) == rgba8_converted(src@, dst@, intent, old(pixels)@),
        r is Err ==> (r matches Err(ColorError::BadTransform(_))) && final(pixels)@ == old(pixels)@,
        forall|i: int| 0 <= i < old(pixels)@.len() && i % 4 == 3 ==> #[trigger] final(pixels)@[i] == old(pixels)@[i],
{
    match lcms_convert(pixels, src, dst, intent) {
        Ok(()) => Ok(()),
        Err(msg) => Err(ColorError::BadTransform(msg)),
    }
}

} // verus!
