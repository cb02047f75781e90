//! What a media file is made of, as plain values.
use vstd::prelude::*;

use crate::text::owned;

verus! {

/// The container formats that are told apart.
#[derive(Debug, Clone, Copy, PartialEq, Eq, Structural)]
pub enum Container {
    Matroska,
    WebM,
    Mp4,
    FragmentedMp4,
    MpegTs,
    MpegPs,
    Avi,
    Asf,
    Flv,
    Ogg,
    /// Any other format.
    Other,
}

impl Container {
    /// The name that reports show.
    pub open spec fn shown(self) -> Seq<char> {
        match self {
            Container::Matroska => "Matroska"@,
            Container::WebM => "WebM"@,
            Container::Mp4 => "Mp4"@,
            Container::FragmentedMp4 => "FragmentedMp4"@,
            Container::MpegTs => "MpegTs"@,
            Container::MpegPs => "MpegPs"@,
            Container::Avi => "Avi"@,
            Container::Asf => "Asf"@,
            Container::Flv => "Flv"@,
            Container::Ogg => "Ogg"@,
            Container::Other => "Other"@,
        }
    }

    /// The name that reports show.
    pub fn name(self) -> (r: String)
        ensures
            r@ == self.shown(),
    {
        match self {
            Container::Matroska => owned("Matroska"),
            Container::WebM => owned("WebM"),
            Container::Mp4 => owned("Mp4"),
            Container::FragmentedMp4 => owned("FragmentedMp4"),
            Container::MpegTs => owned("MpegTs"),
            Container::MpegPs => owned("MpegPs"),
            Container::Avi => owned("Avi"),
            Container::Asf => owned("Asf"),
            Container::Flv => owned("Flv"),
            Container::Ogg => owned("Ogg"),
            Container::Other => owned("Other"),
        }
    }
}

} // verus!
