//! The benchmark plan: for each workload the directory it lives in and the
//! test scripts that measure it, one script for each framework.

use vstd::prelude::*;
use vstd::string::*;

verus! {

/// The number of frameworks that are measured against each other.
pub const FRAME_COUNT: usize = 7;

/// The number of workloads.
pub const GROUP_COUNT: usize = 4;

/// What every script starts with: the shell code that reads `--iteration`.
pub const ITERATION_ARG: &'static str =
    "#!/bin/bash\n\niteration=\nwhile [[ $# -gt 0 ]]; do\n    case \"$1\" in\n--iteration)\n            iteration=\"$2\"\n        shift 2\n            ;;\n        *)\n        echo \"Unknown parameter: $1\"\nexit 1\n;;\nesac\ndone\n\nif [[ -z \"$iteration\" ]]; then\necho \"Error: --iteration argument is required.\"\nexit 1\nfi\n\nif ! [[ \"$iteration\" =~ ^[0-9]+$ ]]; then\necho \"Error: --iteration must be a positive integer.\"\nexit 1\nfi\n";

/// A workload's directory, the paths of its test scripts, and what the
/// scripts hold.
pub struct TestGroup {
    pwd: String,
    scripts: Vec<String>,
    bodies: Vec<String>,
}

/// The name of framework `index`.
pub open spec fn frame_name(index: int) -> Seq<char> {
    if index == 0 {
        "sequential"@
    } else if index == 1 {
        "rust-ssp"@
    } else if index == 2 {
        "std-threads"@
    } else if index == 3 {
        "tokio"@
    } else if index == 4 {
        "rayon"@
    } else if index == 5 {
        "pipeliner"@
    } else {
        "dagrs"@
    }
}

/// The directory of workload `group`.
pub open spec fn location(group: int) -> Seq<char> {
    if group == 0 {
        "../bzip2"@
    } else if group == 1 {
        "../eye-detector"@
    } else if group == 2 {
        "../image-processing"@
    } else {
        "../micro-bench"@
    }
}

/// The path of the script that measures framework `frame` on workload `group`.
pub open spec fn script_path(group: int, frame: int) -> Seq<char> {
    location(group) + "/test_"@ + frame_name(frame) + ".sh"@
}

/// The decimal digit `value`, for `value` below ten.
pub open spec fn digit(value: nat) -> Seq<char> {
    if value == 0 {
        "0"@
    } else if value == 1 {
        "1"@
    } else if value == 2 {
        "2"@
    } else if value == 3 {
        "3"@
    } else if value == 4 {
        "4"@
    } else if value == 5 {
        "5"@
    } else if value == 6 {
        "6"@
    } else if value == 7 {
        "7"@
    } else if value == 8 {
        "8"@
    } else {
        "9"@
    }
}

/// The number in decimal, without leading zeros.
pub open spec fn decimal(number: nat) -> Seq<char>
    decreases number,
{
    if number < 10 {
        digit(number)
    } else {
        decimal(number / 10) + digit(number % 10)
    }
}

/// One run of the compression program: framework `f` with `n` threads does
/// `action` on `file` and logs to `log`.
pub open spec fn bzip2_run(
    f: Seq<char>,
    n: Seq<char>,
    action: Seq<char>,
    file: Seq<char>,
    log: Seq<char>,
    tail: Seq<char>,
) -> Seq<char> {
    "./target/release/bzip2 "@ + f + " "@ + n + " "@ + action + " workload/inputs/"@ + f + "/"@
        + file + " > \"logs/"@ + f + "_"@ + action + log + "\" 2>&1"@ + tail
}

/// The script of the compression workload, after the common start.
pub open spec fn bzip2_script(f: Seq<char>, n: Seq<char>) -> Seq<char> {
    "rm -r workload/inputs/"@ + f + "\ncp -r workload/backup workload/inputs/"@ + f
        + "\nrm logs/"@ + f + "_*_iter${iteration}*.log\n"@ + bzip2_run(
        f,
        n,
        "compress"@,
        "avi_video.avi"@,
        "_avi_video_iter${iteration}.log"@,
        "\n"@,
    ) + bzip2_run(f, n, "compress"@, "iso_file.iso"@, "_iso_file_iter${iteration}.log"@, " \n"@)
        + bzip2_run(f, n, "compress"@, "wiki_data"@, "_iter${iteration}.log_wiki_data"@, " \n"@)
        + bzip2_run(
        f,
        n,
        "compress"@,
        "jdk-17.0.12_linux-x64_bin.tar.gz"@,
        "_jdk_iter${iteration}.log"@,
        " \n\n"@,
    ) + bzip2_run(
        f,
        n,
        "decompress"@,
        "avi_video.avi.bz2"@,
        "_avi_video_iter${iteration}.log"@,
        "\n"@,
    ) + bzip2_run(
        f,
        n,
        "decompress"@,
        "iso_file.iso.bz2"@,
        "_iso_file_iter${iteration}.log"@,
        " \n"@,
    ) + bzip2_run(
        f,
        n,
        "decompress"@,
        "wiki_data.bz2"@,
        "_iter${iteration}.log_wiki_data"@,
        " \n"@,
    ) + bzip2_run(
        f,
        n,
        "decompress"@,
        "jdk-17.0.12_linux-x64_bin.tar.gz.bz2"@,
        "_jdk_iter${iteration}.log"@,
        "\n"@,
    )
}

/// One run of a program that takes framework, thread count and an input:
/// `program` is the command up to the framework, `between` stands between
/// framework and thread count, `input` after the thread count, and `log`
/// after the framework in the name of the log.
pub open spec fn plain_run(
    program: Seq<char>,
    f: Seq<char>,
    between: Seq<char>,
    n: Seq<char>,
    input: Seq<char>,
    log: Seq<char>,
) -> Seq<char> {
    program + f + between + n + input + " > logs/"@ + f + log + " 2>&1\n"@
}

/// The script of the eye detector, after the common start.
pub open spec fn eye_detector_script(f: Seq<char>, n: Seq<char>) -> Seq<char> {
    "rm logs/"@ + f + "_*_iter${iteration}*.log\nrm output_"@ + f + ".avi\n"@ + plain_run(
        "./target/release/eye-detector "@,
        f,
        " "@,
        n,
        " ./inputs/mixed_15s.mp4"@,
        "_mixed_iter${iteration}.log"@,
    ) + plain_run(
        "./target/release/eye-detector "@,
        f,
        " "@,
        n,
        " ./inputs/one_face_15s.mp4"@,
        "_one_face_iter${iteration}.log"@,
    ) + plain_run(
        "./target/release/eye-detector "@,
        f,
        " "@,
        n,
        " ./inputs/several_faces_15s.mp4"@,
        "_several_faces_iter${iteration}.log"@,
    )
}

/// The script of the image workload, after the common start.
pub open spec fn image_processing_script(f: Seq<char>, n: Seq<char>) -> Seq<char> {
    "rm logs/"@ + f + "_*_iter${iteration}*.log\n"@ + plain_run(
        "./target/release/image-processing "@,
        f,
        " "@,
        n,
        " input_big"@,
        "_big_iter${iteration}.log"@,
    ) + plain_run(
        "./target/release/image-processing "@,
        f,
        " "@,
        n,
        " input_mixed"@,
        "_mixed_iter${iteration}.log"@,
    ) + plain_run(
        "./target/release/image-processing "@,
        f,
        " "@,
        n,
        " input_small"@,
        "_small_iter${iteration}.log"@,
    )
}

/// The script of the fractal workload, after the common start.
pub open spec fn micro_bench_script(f: Seq<char>, n: Seq<char>) -> Seq<char> {
    "rm logs/"@ + f + "_*_iter${iteration}*.log\n"@ + plain_run(
        "./target/release/micro-bench "@,
        f,
        " 2048 "@,
        n,
        " 3000 2000"@,
        "_iter${iteration}.log"@,
    )
}

/// What the script of workload `group` for framework `frame` holds when the
/// workloads run with `nthreads` threads.
pub open spec fn script_body(group: int, frame: int, nthreads: nat) -> Seq<char> {
    let f = frame_name(frame);
    let n = decimal(nthreads);
    ITERATION_ARG@ + (if group == 0 {
        bzip2_script(f, n)
    } else if group == 1 {
        eye_detector_script(f, n)
    } else if group == 2 {
        image_processing_script(f, n)
    } else {
        micro_bench_script(f, n)
    })
}

/// The name of framework `index`, or `None` from `FRAME_COUNT` on.
pub fn frame(index: usize) -> (name: Option<&'static str>)
    ensures
        index < FRAME_COUNT <==> name is Some,
        name matches Some(text) ==> text@ == frame_name(index as int),
{
    if index == 0 {
        Some("sequential")
    } else if index == 1 {
        Some("rust-ssp")
    } else if index == 2 {
        Some("std-threads")
    } else if index == 3 {
        Some("tokio")
    } else if index == 4 {
        Some("rayon")
    } else if index == 5 {
        Some("pipeliner")
    } else if index == 6 {
        Some("dagrs")
    } else {
        None
    }
}

/// The directory of workload `group`, or `None` from `GROUP_COUNT` on.
pub fn workload_dir(group: usize) -> (dir: Option<&'static str>)
    ensures
        group < GROUP_COUNT <==> dir is Some,
        dir matches Some(text) ==> text@ == location(group as int),
{
    if group == 0 {
        Some("../bzip2")
    } else if group == 1 {
        Some("../eye-detector")
    } else if group == 2 {
        Some("../image-processing")
    } else if group == 3 {
        Some("../micro-bench")
    } else {
        None
    }
}

/// The decimal digit `value`.
fn digit_text(value: usize) -> (text: &'static str)
    requires
        value < 10,
    ensures
        text@ == digit(value as nat),
{
    if value == 0 {
        "0"
    } else if value == 1 {
        "1"
    } else if value == 2 {
        "2"
    } else if value == 3 {
        "3"
    } else if value == 4 {
        "4"
    } else if value == 5 {
        "5"
    } else if value == 6 {
        "6"
    } else if value == 7 {
        "7"
    } else if value == 8 {
        "8"
    } else {
        "9"
    }
}

/// The number in decimal, without leading zeros.
pub fn decimal_text(number: usize) -> (text: String)
    ensures
        text@ == decimal(number as nat),
    decreases number,
{
    if number < 10 {
        String::from_str(digit_text(number))
    } else {
        let mut text = decimal_text(number / 10);
        text.append(digit_text(number % 10));
        text
    }
}

/// Appends one run of the compression program.
fn append_bzip2_run(text: &mut String, f: &str, n: &str, action: &str, file: &str, log: &str, tail: &str)
    ensures
        final(text)@ == old(text)@ + bzip2_run(f@, n@, action@, file@, log@, tail@),
{
    let mut run = String::from_str("./target/release/bzip2 ");
    run.append(f);
    run.append(" ");
    run.append(n);
    run.append(" ");
    run.append(action);
    run.append(" workload/inputs/");
    run.append(f);
    run.append("/");
    run.append(file);
    run.append(" > \"logs/");
    run.append(f);
    run.append("_");
    run.append(action);
    run.append(log);
    run.append("\" 2>&1");
    run.append(tail);
    text.append(run.as_str());
}

/// Appends one run of a program that takes framework, thread count and an input.
fn append_plain_run(
    text: &mut String,
    program: &str,
    f: &str,
    between: &str,
    n: &str,
    input: &str,
    log: &str,
)
    ensures
        final(text)@ == old(text)@ + plain_run(program@, f@, between@, n@, input@, log@),
{
    let mut run = String::from_str(program);
    run.append(f);
    run.append(between);
    run.append(n);
    run.append(input);
    run.append(" > logs/");
    run.append(f);
    run.append(log);
    run.append(" 2>&1\n");
    text.append(run.as_str());
}

fn bzip2_text(f: &str, n: &str) -> (text: String)
    ensures
        text@ == bzip2_script(f@, n@),
{
    let mut text = String::from_str("rm -r workload/inputs/");
    text.append(f);
    text.append("\ncp -r workload/backup workload/inputs/");
    text.append(f);
    text.append("\nrm logs/");
    text.append(f);
    text.append("_*_iter${iteration}*.log\n");
    append_bzip2_run(&mut text, f, n, "compress", "avi_video.avi", "_avi_video_iter${iteration}.log", "\n");
    append_bzip2_run(&mut text, f, n, "compress", "iso_file.iso", "_iso_file_iter${iteration}.log", " \n");
    append_bzip2_run(&mut text, f, n, "compress", "wiki_data", "_iter${iteration}.log_wiki_data", " \n");
    append_bzip2_run(
        &mut text,
        f,
        n,
        "compress",
        "jdk-17.0.12_linux-x64_bin.tar.gz",
        "_jdk_iter${iteration}.log",
        " \n\n",
    );
    append_bzip2_run(
        &mut text,
        f,
        n,
        "decompress",
        "avi_video.avi.bz2",
        "_avi_video_iter${iteration}.log",
        "\n",
    );
    append_bzip2_run(
        &mut text,
        f,
        n,
        "decompress",
        "iso_file.iso.bz2",
        "_iso_file_iter${iteration}.log",
        " \n",
    );
    append_bzip2_run(
        &mut text,
        f,
        n,
        "decompress",
        "wiki_data.bz2",
        "_iter${iteration}.log_wiki_data",
        " \n",
    );
    append_bzip2_run(
        &mut text,
        f,
        n,
        "decompress",
        "jdk-17.0.12_linux-x64_bin.tar.gz.bz2",
        "_jdk_iter${iteration}.log",
        "\n",
    );
    text
}

fn eye_detector_text(f: &str, n: &str) -> (text: String)
    ensures
        text@ == eye_detector_script(f@, n@),
{
    let mut text = String::from_str("rm logs/");
    text.append(f);
    text.append("_*_iter${iteration}*.log\nrm output_");
    text.append(f);
    text.append(".avi\n");
    append_plain_run(
        &mut text,
        "./target/release/eye-detector ",
        f,
        " ",
        n,
        " ./inputs/mixed_15s.mp4",
        "_mixed_iter${iteration}.log",
    );
    append_plain_run(
        &mut text,
        "./target/release/eye-detector ",
        f,
        " ",
        n,
        " ./inputs/one_face_15s.mp4",
        "_one_face_iter${iteration}.log",
    );
    append_plain_run(
        &mut text,
        "./target/release/eye-detector ",
        f,
        " ",
        n,
        " ./inputs/several_faces_15s.mp4",
        "_several_faces_iter${iteration}.log",
    );
    text
}

fn image_processing_text(f: &str, n: &str) -> (text: String)
    ensures
        text@ == image_processing_script(f@, n@),
{
    let mut text = String::from_str("rm logs/");
    text.append(f);
    text.append("_*_iter${iteration}*.log\n");
    append_plain_run(
        &mut text,
        "./target/release/image-processing ",
        f,
        " ",
        n,
        " input_big",
        "_big_iter${iteration}.log",
    );
    append_plain_run(
        &mut text,
        "./target/release/image-processing ",
        f,
        " ",
        n,
        " input_mixed",
        "_mixed_iter${iteration}.log",
    );
    append_plain_run(
        &mut text,
        "./target/release/image-processing ",
        f,
        " ",
        n,
        " input_small",
        "_small_iter${iteration}.log",
    );
    text
}

fn micro_bench_text(f: &str, n: &str) -> (text: String)
    ensures
        text@ == micro_bench_script(f@, n@),
{
    let mut text = String::from_str("rm logs/");
    text.append(f);
    text.append("_*_iter${iteration}*.log\n");
    append_plain_run(
        &mut text,
        "./target/release/micro-bench ",
        f,
        " 2048 ",
        n,
        " 3000 2000",
        "_iter${iteration}.log",
    );
    text
}

/// What the script of workload `group` for framework `frame` holds when the
/// workloads run with `nthreads` threads, or `None` if there is no such
/// workload or framework.
pub fn script_text(group: usize, frame_index: usize, nthreads: usize) -> (text: Option<String>)
    ensures
        (group < GROUP_COUNT && frame_index < FRAME_COUNT) <==> text is Some,
        text matches Some(body) ==> body@ == script_body(
            group as int,
            frame_index as int,
            nthreads as nat,
        ),
{
    if group >= GROUP_COUNT {
        return None;
    }
    let name = match frame(frame_index) {
        Some(name) => name,
        None => {
            return None;
        },
    };
    let count = decimal_text(nthreads);
    let script = if group == 0 {
        bzip2_text(name, count.as_str())
    } else if group == 1 {
        eye_detector_text(name, count.as_str())
    } else if group == 2 {
        image_processing_text(name, count.as_str())
    } else {
        micro_bench_text(name, count.as_str())
    };
    let mut body = String::from_str(ITERATION_ARG);
    body.append(script.as_str());
    Some(body)
}

impl TestGroup {
    /// The directory, as text.
    pub closed spec fn dir(&self) -> Seq<char> {
        self.pwd@
    }

    /// The script paths, as text.
    pub closed spec fn paths(&self) -> Seq<Seq<char>> {
        Seq::new(self.scripts@.len(), |i: int| self.scripts@[i]@)
    }

    /// What the scripts hold, as text, as far as the group knows it.
    pub closed spec fn texts(&self) -> Seq<Seq<char>> {
        Seq::new(self.bodies@.len(), |i: int| self.bodies@[i]@)
    }

    /// A group of scripts that exist already: the group holds their paths only.
    pub fn new(pwd: String, scripts: Vec<String>) -> (group: Self)
        ensures
            group.dir() == pwd@,
            group.paths() == Seq::new(scripts@.len(), |i: int| scripts@[i]@),
            group.texts() == Seq::<Seq<char>>::empty(),
    {
        let group = Self { pwd, scripts, bodies: Vec::new() };
        assert(group.texts() =~= Seq::<Seq<char>>::empty());
        group
    }

    /// The directory of the workload.
    pub fn pwd(&self) -> (pwd: String)
        ensures
            pwd@ == self.dir(),
    {
        self.pwd.clone()
    }

    /// The number of scripts of the group.
    pub fn script_count(&self) -> (count: usize)
        ensures
            count == self.paths().len(),
    {
        self.scripts.len()
    }

    /// The path of script `index`.
    pub fn script(&self, index: usize) -> (path: Option<String>)
        ensures
            index < self.paths().len() <==> path is Some,
            path matches Some(text) ==> text@ == self.paths()[index as int],
    {
        if index < self.scripts.len() {
            Some(self.scripts[index].clone())
        } else {
            None
        }
    }

    /// What script `index` holds, if the group knows it.
    pub fn body(&self, index: usize) -> (body: Option<String>)
        ensures
            index < self.texts().len() <==> body is Some,
            body matches Some(text) ==> text@ == self.texts()[index as int],
    {
        if index < self.bodies.len() {
            Some(self.bodies[index].clone())
        } else {
            None
        }
    }
}

/// The test group of workload `group` for runs with `nthreads` threads: its
/// directory, and for each framework, in their order, the path of the script
/// and what the script holds. `None` if there is no such workload.
pub fn test_group(group: usize, nthreads: usize) -> (planned: Option<TestGroup>)
    ensures
        group < GROUP_COUNT <==> planned is Some,
        planned matches Some(built) ==> {
            &&& built.dir() == location(group as int)
            &&& built.paths() == Seq::new(FRAME_COUNT as nat, |i: int| script_path(group as int, i))
            &&& built.texts() == Seq::new(
                FRAME_COUNT as nat,
                |i: int| script_body(group as int, i, nthreads as nat),
            )
        },
{
    let dir = match workload_dir(group) {
        Some(dir) => dir,
        None => {
            return None;
        },
    };
    let mut scripts: Vec<String> = Vec::new();
    let mut bodies: Vec<String> = Vec::new();
    let mut index: usize = 0;
    while index < FRAME_COUNT
        invariant
            index <= FRAME_COUNT,
            group < GROUP_COUNT,
            dir@ == location(group as int),
            scripts@.len() == index,
            bodies@.len() == index,
            forall|i: int| 0 <= i < index ==> (#[trigger] scripts@[i])@ == script_path(group as int, i),
            forall|i: int|
                0 <= i < index ==> (#[trigger] bodies@[i])@ == script_body(
                    group as int,
                    i,
                    nthreads as nat,
                ),
        decreases FRAME_COUNT - index,
    {
        let name = frame(index).unwrap();
        let mut path = String::from_str(dir);
        path.append("/test_");
        path.append(name);
        path.append(".sh");
        scripts.push(path);
        bodies.push(script_text(group, index, nthreads).unwrap());
        index = index + 1;
    }
    let planned = TestGroup { pwd: String::from_str(dir), scripts, bodies };
    assert(planned.paths() =~= Seq::new(
        FRAME_COUNT as nat,
        |i: int| script_path(group as int, i),
    ));
    assert(planned.texts() =~= Seq::new(
        FRAME_COUNT as nat,
        |i: int| script_body(group as int, i, nthreads as nat),
    ));
    Some(planned)
}

/// The benchmark plan for runs with `nthreads` threads: the test groups of
/// the four workloads, in the order block compression, eye detection, image
/// processing, fractal rows. Writing the scripts to their paths is left to
/// the caller.
pub fn generate_test_script(nthreads: usize) -> (groups: Vec<TestGroup>)
    ensures
        groups@.len() == GROUP_COUNT,
        forall|g: int|
            0 <= g < GROUP_COUNT ==> {
                &&& (#[trigger] groups@[g]).dir() == location(g)
                &&& groups@[g].paths() == Seq::new(FRAME_COUNT as nat, |i: int| script_path(g, i))
                &&& groups@[g].texts() == Seq::new(
                    FRAME_COUNT as nat,
                    |i: int| script_body(g, i, nthreads as nat),
                )
            },
{
    let mut res: Vec<TestGroup> = Vec::new();
    let mut group: usize = 0;
    while group < GROUP_COUNT
        invariant
            group <= GROUP_COUNT,
            res@.len() == group,
            forall|g: int|
                0 <= g < group ==> {
                    &&& (#[trigger] res@[g]).dir() == location(g)
                    &&& res@[g].paths() == Seq::new(FRAME_COUNT as nat, |i: int| script_path(g, i))
                    &&& res@[g].texts() == Seq::new(
                        FRAME_COUNT as nat,
                        |i: int| script_body(g, i, nthreads as nat),
                    )
                },
        decreases GROUP_COUNT - group,
    {
        res.push(test_group(group, nthreads).unwrap());
        group = group + 1;
    }
    res
}

} // verus!
