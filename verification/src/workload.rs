//! The four workloads that run on the engine, as far as the engine is
//! concerned: the shape of each pipeline, the order of the stages in a lane,
//! and the file names of the compression workload.

use crate::layout::{build_pipeline, first_worker, lays_out, PipelineLayout};
use vstd::prelude::*;
use vstd::string::*;

verus! {

/// What the compression workload does with its file.
#[derive(Clone, Copy, Debug, PartialEq, Eq, Structural)]
pub enum FileAction {
    Compress,
    Decompress,
}

/// The stages of a lane of the image workload, in the order in which an
/// image goes through them.
#[derive(Clone, Copy, Debug, PartialEq, Eq, Structural)]
pub enum Filter {
    Saturation,
    Emboss,
    Gamma,
    Sharpen,
    Grayscale,
}

/// The stages of a lane of the eye detector.
#[derive(Clone, Copy, Debug, PartialEq, Eq, Structural)]
pub enum Detector {
    /// Equalizes the frame and finds the faces in it.
    Face,
    /// Finds the eyes in every face and draws both into the frame.
    Eye,
}

/// The number of worker stages in a lane of the compression workload.
pub const COMPRESSION_DEPTH: usize = 1;

/// The number of worker stages in a lane of the eye detector.
pub const DETECTOR_DEPTH: usize = 2;

/// The number of worker stages in a lane of the image workload.
pub const FILTER_DEPTH: usize = 5;

/// The number of worker stages in a lane of the fractal workload.
pub const FRACTAL_DEPTH: usize = 2;

/// The action that the word on the command line names.
pub open spec fn action_named(word: Seq<char>) -> Option<FileAction> {
    if word == "compress"@ {
        Some(FileAction::Compress)
    } else if word == "decompress"@ {
        Some(FileAction::Decompress)
    } else {
        None
    }
}

/// The filter at level `level` of a lane.
pub open spec fn filter_of(level: usize) -> Option<Filter> {
    if level == 0 {
        Some(Filter::Saturation)
    } else if level == 1 {
        Some(Filter::Emboss)
    } else if level == 2 {
        Some(Filter::Gamma)
    } else if level == 3 {
        Some(Filter::Sharpen)
    } else if level == 4 {
        Some(Filter::Grayscale)
    } else {
        None
    }
}

/// Reads the action off the command line. Any other word names no action:
/// nothing is run for it.
pub fn file_action(word: &str) -> (action: Option<FileAction>)
    ensures
        action == action_named(word@),
{
    let given = String::from_str(word);
    if given == String::from_str("compress") {
        Some(FileAction::Compress)
    } else if given == String::from_str("decompress") {
        Some(FileAction::Decompress)
    } else {
        None
    }
}

/// The name of the compressed file: the name of the input with `.bz2` behind it.
pub fn compressed_name(file_name: &str) -> (name: String)
    ensures
        name@ == file_name@ + ".bz2"@,
{
    let mut name = String::from_str(file_name);
    name.append(".bz2");
    name
}

/// The name of the decompressed file: the name of the input without its
/// last four characters. A shorter name has no decompressed name.
pub fn decompressed_name(file_name: &str) -> (name: Option<String>)
    ensures
        file_name@.len() >= 4 <==> name is Some,
        name matches Some(text) ==> text@ == file_name@.subrange(0, file_name@.len() - 4),
{
    let length: usize = file_name.unicode_len();
    if length < 4 {
        None
    } else {
        Some(String::from_str(file_name.substring_char(0, length - 4)))
    }
}

/// The filter at level `level` of a lane of the image workload.
pub fn filter_at(level: usize) -> (filter: Option<Filter>)
    ensures
        filter == filter_of(level),
        filter is Some <==> level < FILTER_DEPTH,
{
    if level == 0 {
        Some(Filter::Saturation)
    } else if level == 1 {
        Some(Filter::Emboss)
    } else if level == 2 {
        Some(Filter::Gamma)
    } else if level == 3 {
        Some(Filter::Sharpen)
    } else if level == 4 {
        Some(Filter::Grayscale)
    } else {
        None
    }
}

/// The detector at level `level` of a lane of the eye detector.
pub fn detector_at(level: usize) -> (detector: Option<Detector>)
    ensures
        detector == (if level == 0 {
            Some(Detector::Face)
        } else if level == 1 {
            Some(Detector::Eye)
        } else {
            None
        }),
{
    if level == 0 {
        Some(Detector::Face)
    } else if level == 1 {
        Some(Detector::Eye)
    } else {
        None
    }
}

/// Block compression: a slicer, `threads` compressing workers side by side,
/// and a reducer that every worker sends to.
pub fn compression_layout(threads: usize) -> (layout: Option<PipelineLayout>)
    ensures
        layout is Some <==> 0 < threads && 2 + threads <= usize::MAX,
        layout matches Some(built) ==> lays_out(built, threads as nat, 1, true),
{
    proof {
        assert(threads * 1 == threads) by (nonlinear_arith);
    }
    build_pipeline(threads, COMPRESSION_DEPTH, true)
}

/// Eye detection: a reader, `nthreads` lanes of a face stage followed by an
/// eye stage, and a writer. A count that is not positive gives no layout.
pub fn eye_tracker_layout(nthreads: i32) -> (layout: Option<PipelineLayout>)
    ensures
        layout is Some <==> 0 < nthreads && 2 + nthreads * 2 <= usize::MAX,
        layout matches Some(built) ==> lays_out(built, nthreads as nat, 2, true),
{
    if nthreads <= 0 {
        return None;
    }
    proof {
        assert(first_worker(true) == 2);
    }
    build_pipeline(nthreads as usize, DETECTOR_DEPTH, true)
}

/// Image filtering: a splitter and `threads` lanes of five filters. Nothing
/// collects the filtered images: the last filter of a lane sends to nobody.
pub fn filter_layout(threads: usize) -> (layout: Option<PipelineLayout>)
    ensures
        layout is Some <==> 0 < threads && 1 + threads * 5 <= usize::MAX,
        layout matches Some(built) ==> lays_out(built, threads as nat, 5, false),
{
    proof {
        assert(first_worker(false) == 1);
    }
    build_pipeline(threads, FILTER_DEPTH, false)
}

/// Fractal rows: a generator, `threads` lanes of two iteration stages, and a
/// writer.
pub fn fractal_layout(threads: usize) -> (layout: Option<PipelineLayout>)
    ensures
        layout is Some <==> 0 < threads && 2 + threads * 2 <= usize::MAX,
        layout matches Some(built) ==> lays_out(built, threads as nat, 2, true),
{
    proof {
        assert(first_worker(true) == 2);
    }
    build_pipeline(threads, FRACTAL_DEPTH, true)
}

} // verus!
