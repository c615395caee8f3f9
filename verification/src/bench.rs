//! Benchmarks: their definitions, and a run through a queue of them.
//!
//! Floating-point numbers pass through as their bits.

use vstd::prelude::*;

use crate::frames::{history_for, CameraPose, FrameHistory, FramePlan};
use crate::shader::{HISTORY_MOVED, HISTORY_NONE, HISTORY_STILL};
use crate::text::{append_nat, dec_nat};

verus! {

/// Benchmark definition loaded from a TOML file.
#[derive(Debug)]
pub struct BenchmarkFile {
    pub scene: String,
    pub frame_count: u32,
    /// Size to render at. Headless runs use it exactly; a window asks for it, but
    /// the window manager may hand back something else.
    pub width: u32,
    pub height: u32,
    /// Paths traced per pixel per frame.
    pub samples: u32,
    pub position: Vec<[u32; 3]>,
    pub look_at: Vec<[u32; 3]>,
}

/// Paths traced per pixel per frame where a definition does not say.
pub fn default_samples() -> (samples: u32)
    ensures
        samples == 1,
{
    1
}

/// Why a definition cannot be run, in words.
pub open spec fn load_error(name: Seq<char>, def: BenchmarkFile) -> Option<Seq<char>> {
    if def.frame_count < 1 {
        Some("Benchmark "@ + name + " needs at least 1 frame"@)
    } else if def.samples < 1 {
        Some("Benchmark "@ + name + " needs at least 1 sample per pixel"@)
    } else if def.position@.len() < 4 {
        Some(
            "Benchmark "@ + name + " needs at least 4 position points, got "@ + dec_nat(
                def.position@.len(),
            ),
        )
    } else if def.look_at@.len() < 4 {
        Some(
            "Benchmark "@ + name + " needs at least 4 look_at points, got "@ + dec_nat(
                def.look_at@.len(),
            ),
        )
    } else {
        None
    }
}

impl BenchmarkFile {
    fn complaint(name: &str, what: &str) -> (message: String)
        ensures
            message@ == "Benchmark "@ + name@ + what@,
    {
        let mut message: String = String::from_str("Benchmark ");
        message.append(name);
        message.append(what);
        message
    }

    /// Take a definition that has been read for a name, if it can be run.
    pub fn load(name: &str, def: BenchmarkFile) -> (loaded: Result<Self, String>)
        ensures
            match loaded {
                Ok(same) => same == def && load_error(name@, def) is None,
                Err(message) => load_error(name@, def) == Some(message@),
            },
            loaded is Ok <==> def.frame_count >= 1 && def.samples >= 1 && def.position@.len() >= 4
                && def.look_at@.len() >= 4,
    {
        if def.frame_count < 1 {
            return Err(Self::complaint(name, " needs at least 1 frame"));
        }
        if def.samples < 1 {
            return Err(Self::complaint(name, " needs at least 1 sample per pixel"));
        }
        if def.position.len() < 4 {
            let mut message: String = Self::complaint(
                name,
                " needs at least 4 position points, got ",
            );
            append_nat(&mut message, def.position.len() as u64);
            return Err(message);
        }
        if def.look_at.len() < 4 {
            let mut message: String = Self::complaint(
                name,
                " needs at least 4 look_at points, got ",
            );
            append_nat(&mut message, def.look_at.len() as u64);
            return Err(message);
        }
        Ok(def)
    }
}

/// The name of the file that defines a benchmark.
pub fn config_filename(name: &str) -> (file: String)
    ensures
        file@ == name@ + ".toml"@,
{
    let mut file: String = String::from_str(name);
    file.append(".toml");
    file
}

/// A queued benchmark with its name and definition.
#[derive(Debug)]
pub struct QueuedBenchmark {
    pub name: String,
    pub def: BenchmarkFile,
}

/// Where the frames of a run end up.
#[derive(Clone, Copy, Debug, PartialEq, Eq, Structural)]
pub enum Mode {
    /// In an offscreen target, and some of them in files if asked for.
    Headless { save_frames: bool },
    /// In a window. Files are for headless runs only: if they were asked for, that
    /// is ignored.
    Window { ignores_save_frames: bool },
}

/// What to run.
pub struct Run {
    pub benchmarks: Vec<QueuedBenchmark>,
    pub mode: Mode,
}

/// Where the frames of a run end up.
pub open spec fn mode_of(headless: bool, save_frames: bool) -> Mode {
    if headless {
        Mode::Headless { save_frames }
    } else {
        Mode::Window { ignores_save_frames: save_frames }
    }
}

fn run_benchmarks(benchmarks: Vec<QueuedBenchmark>, headless: bool, save_frames: bool) -> (run: Run)
    ensures
        run.benchmarks == benchmarks,
        run.mode == mode_of(headless, save_frames),
{
    if headless {
        return Run { benchmarks, mode: Mode::Headless { save_frames } };
    }
    Run { benchmarks, mode: Mode::Window { ignores_save_frames: save_frames } }
}

/// Run one benchmark, given the definition that was read for its name.
pub fn run_bench(name: String, def: BenchmarkFile, headless: bool, save_frames: bool) -> (run:
    Result<Run, String>)
    ensures
        match run {
            Ok(run) => {
                &&& load_error(name@, def) is None
                &&& run.benchmarks@ == seq![QueuedBenchmark { name, def }]
                &&& run.mode == mode_of(headless, save_frames)
            },
            Err(message) => load_error(name@, def) == Some(message@),
        },
        run is Ok <==> def.frame_count >= 1 && def.samples >= 1 && def.position@.len() >= 4
            && def.look_at@.len() >= 4,
        run matches Ok(run) ==> {
            &&& run.mode is Headless <==> headless
            &&& run.mode matches Mode::Headless { save_frames: save } ==> save == save_frames
            &&& run.mode matches Mode::Window { ignores_save_frames } ==> ignores_save_frames
                == save_frames
        },
{
    match BenchmarkFile::load(name.as_str(), def) {
        Ok(def) => {
            let mut benchmarks: Vec<QueuedBenchmark> = Vec::new();
            benchmarks.push(QueuedBenchmark { name, def });
            Ok(run_benchmarks(benchmarks, headless, save_frames))
        },
        Err(message) => Err(message),
    }
}

/// Why the benchmark of a name cannot be run, given what came of reading its
/// definition, in words.
pub open spec fn failure(name: Seq<char>, read: Result<BenchmarkFile, String>) -> Option<
    Seq<char>,
> {
    match read {
        Ok(def) => load_error(name, def),
        Err(message) => Some(message@),
    }
}

/// Why the first of some benchmarks that cannot be run cannot be run, in words.
pub open spec fn first_failure(read: Seq<(String, Result<BenchmarkFile, String>)>) -> Option<
    Seq<char>,
>
    decreases read.len(),
{
    if read.len() == 0 {
        None
    } else {
        match failure(read[0].0@, read[0].1) {
            Some(message) => Some(message),
            None => first_failure(read.skip(1)),
        }
    }
}

/// Whether a queue holds every benchmark that was read, in order.
pub open spec fn queues(
    queue: Seq<QueuedBenchmark>,
    read: Seq<(String, Result<BenchmarkFile, String>)>,
) -> bool {
    &&& queue.len() == read.len()
    &&& forall|i: int|
        0 <= i < queue.len() ==> (#[trigger] queue[i]).name == read[i].0 && read[i].1 == Ok::<
            BenchmarkFile,
            String,
        >(queue[i].def)
}

/// Queue benchmarks in order, given what came of reading the definition for each
/// name. The first one that cannot be read or run ends it.
pub fn queue_all(read: Vec<(String, Result<BenchmarkFile, String>)>) -> (queued: Result<
    Vec<QueuedBenchmark>,
    String,
>)
    ensures
        match queued {
            Ok(queue) => first_failure(read@) is None && queues(queue@, read@),
            Err(message) => first_failure(read@) == Some(message@),
        },
{
    let mut rest: Vec<(String, Result<BenchmarkFile, String>)> = read;
    let mut queue: Vec<QueuedBenchmark> = Vec::new();
    assert(read@.skip(0) =~= read@);
    while rest.len() > 0
        invariant
            queue@.len() <= read@.len(),
            rest@ == read@.skip(queue@.len() as int),
            first_failure(read@) == first_failure(rest@),
            queues(queue@, read@.take(queue@.len() as int)),
        decreases rest@.len(),
    {
        let ghost left = rest@;
        let (name, def) = rest.remove(0);
        assert(left[0] == read@[queue@.len() as int]);
        assert(rest@ =~= left.skip(1));
        assert(rest@ =~= read@.skip((queue@.len() + 1) as int));
        match def {
            Err(message) => {
                return Err(message);
            },
            Ok(def) => match BenchmarkFile::load(name.as_str(), def) {
                Err(message) => {
                    return Err(message);
                },
                Ok(def) => {
                    queue.push(QueuedBenchmark { name, def });
                },
            },
        }
    }
    assert(read@.take(queue@.len() as int) =~= read@);
    Ok(queue)
}

/// Run all benchmarks, in order, given what came of reading the definition for
/// each name.
pub fn run_all_benchmarks(
    read: Vec<(String, Result<BenchmarkFile, String>)>,
    headless: bool,
    save_frames: bool,
) -> (run: Result<Run, String>)
    ensures
        match run {
            Ok(run) => {
                &&& first_failure(read@) is None
                &&& queues(run.benchmarks@, read@)
                &&& run.mode == mode_of(headless, save_frames)
            },
            Err(message) => first_failure(read@) == Some(message@),
        },
        run matches Ok(run) ==> {
            &&& run.mode is Headless <==> headless
            &&& run.mode matches Mode::Headless { save_frames: save } ==> save == save_frames
            &&& run.mode matches Mode::Window { ignores_save_frames } ==> ignores_save_frames
                == save_frames
        },
{
    match queue_all(read) {
        Ok(queue) => Ok(run_benchmarks(queue, headless, save_frames)),
        Err(message) => Err(message),
    }
}

/// How long a frame took, and what it showed. `t` is the bits of a number.
#[derive(Clone, Copy, Debug, PartialEq, Eq)]
pub struct FrameRecord {
    pub frame: u32,
    pub t: u32,
    pub time_us: u64,
    pub camera: CameraPose,
}

/// What to do next in a run.
#[derive(Clone, Copy, Debug, PartialEq, Eq, Structural)]
pub enum Step {
    /// Render a frame of the current benchmark, and save it if asked to.
    Render { frame: u32, save: bool },
    /// Finish the current benchmark.
    Finish,
}

/// Whether a frame of a benchmark of some number of frames is one to save.
pub open spec fn worth_saving(frame: nat, frame_count: nat) -> bool {
    frame % 100 == 0 || frame + 1 == frame_count
}

/// The first frame and the last one are saved, and in between every 100th: a
/// hundred frames on from one that is saved for its number comes the next, and
/// none between.
pub proof fn law_saved_frames(frame: nat, k: nat, frame_count: nat)
    requires
        frame_count > 0,
        0 < k < 100,
    ensures
        worth_saving(0, frame_count),
        worth_saving((frame_count - 1) as nat, frame_count),
        worth_saving(100 * frame, frame_count),
        100 * frame + k + 1 != frame_count ==> !worth_saving(100 * frame + k, frame_count),
{
}

/// A run through the queued benchmarks, independent of where the frames end up.
/// The window and headless modes both drive one of these.
pub struct Session {
    /// What the frames of the current benchmark build on.
    pub history: FrameHistory,
    pub current: QueuedBenchmark,
    pub frame_records: Vec<FrameRecord>,
    pub queue: Vec<QueuedBenchmark>,
}

impl Session {
    /// The frames of the current benchmark are recorded in order.
    pub open spec fn wf(self) -> bool {
        &&& self.history.wf()
        &&& self.frame_records@.len() <= u32::MAX
        &&& forall|i: int|
            0 <= i < self.frame_records@.len() ==> (#[trigger] self.frame_records@[i]).frame == i
    }

    /// The benchmarks that have not been finished, in order.
    pub open spec fn to_do(self) -> Seq<QueuedBenchmark> {
        seq![self.current] + self.queue@
    }

    /// How many frames of the current benchmark have not been rendered.
    pub open spec fn frames_left(self) -> nat {
        if self.frame_records@.len() >= self.current.def.frame_count {
            0
        } else {
            (self.current.def.frame_count - self.frame_records@.len()) as nat
        }
    }

    /// Whether every frame of the current benchmark has been rendered.
    pub open spec fn done(self) -> bool {
        self.frames_left() == 0
    }

    /// Start on the first of some benchmarks.
    pub fn new(benchmarks: Vec<QueuedBenchmark>) -> (session: Self)
        requires
            benchmarks@.len() > 0,
        ensures
            session.wf(),
            session.to_do() == benchmarks@,
            session.current == benchmarks@[0],
            session.queue@ == benchmarks@.skip(1),
            session.frame_records@.len() == 0,
            session.frames_left() == benchmarks@[0].def.frame_count,
            session.history.is_fresh((session.current.def.width, session.current.def.height)),
    {
        let mut queue: Vec<QueuedBenchmark> = benchmarks;
        let current: QueuedBenchmark = queue.remove(0);
        assert(seq![current] + queue@ =~= benchmarks@);
        assert(queue@ =~= benchmarks@.skip(1));
        let history: FrameHistory = FrameHistory::new(current.def.width, current.def.height);
        Self { history, current, frame_records: Vec::new(), queue }
    }

    /// The size the current benchmark asks to be rendered at.
    pub fn size(&self) -> (size: (u32, u32))
        ensures
            size == (self.current.def.width, self.current.def.height),
    {
        (self.current.def.width, self.current.def.height)
    }

    /// Whether every frame of the current benchmark has been rendered.
    pub fn current_done(&self) -> (done: bool)
        requires
            self.wf(),
        ensures
            done == self.done(),
            done <==> self.frame_records@.len() >= self.current.def.frame_count,
    {
        self.frame_records.len() as u32 >= self.current.def.frame_count
    }

    /// What to do next. Every 100th frame and the last one are saved.
    pub fn next_step(&self, save_frames: bool) -> (step: Step)
        requires
            self.wf(),
        ensures
            step == if self.done() {
                Step::Finish
            } else {
                let frame = self.frame_records@.len();
                Step::Render {
                    frame: frame as u32,
                    save: save_frames && (frame % 100 == 0 || frame + 1
                        == self.current.def.frame_count),
                }
            },
            step is Finish <==> self.frame_records@.len() >= self.current.def.frame_count,
            step matches Step::Render { frame, save } ==> {
                &&& frame == self.frame_records@.len()
                &&& save <==> save_frames && worth_saving(
                    frame as nat,
                    self.current.def.frame_count as nat,
                )
                &&& save ==> save_frames
                &&& save_frames && frame % 100 == 0 ==> save
                &&& save_frames && frame + 1 == self.current.def.frame_count ==> save
                &&& save ==> frame % 100 == 0 || frame + 1 == self.current.def.frame_count
            },
    {
        if self.current_done() {
            return Step::Finish;
        }
        let frame: u32 = self.frame_records.len() as u32;
        let save: bool = save_frames && (frame % 100 == 0 || frame + 1
            == self.current.def.frame_count);
        Step::Render { frame, save }
    }

    /// The current benchmark's results have been written: move on to the next
    /// one. Returns false once the queue is empty.
    pub fn finish_current(&mut self) -> (more: bool)
        requires
            old(self).wf(),
        ensures
            final(self).wf(),
            more == (old(self).queue@.len() > 0),
            final(self).history.accumulation == old(self).history.accumulation,
            if more {
                &&& final(self).to_do() == old(self).to_do().skip(1)
                &&& final(self).current == old(self).queue@[0]
                &&& final(self).queue@ == old(self).queue@.skip(1)
                &&& final(self).frame_records@.len() == 0
                &&& final(self).frames_left() == old(self).queue@[0].def.frame_count
                &&& final(self).history.prev_camera is None
            } else {
                *final(self) == *old(self)
            },
    {
        if self.queue.len() == 0 {
            return false;
        }
        let next: QueuedBenchmark = self.queue.remove(0);
        self.frame_records.clear();
        self.history.forget();
        self.current = next;
        assert(self.queue@ =~= old(self).queue@.skip(1));
        assert(self.to_do() =~= old(self).to_do().skip(1));
        true
    }

    /// Match the accumulation buffers to the size being drawn. The result says
    /// whether they have to be rebuilt, which loses their history.
    pub fn resize(&mut self, width: u32, height: u32) -> (rebuild: bool)
        requires
            old(self).wf(),
        ensures
            final(self).wf(),
            rebuild == (old(self).history.accumulation.size != (width, height)),
            if rebuild {
                final(self).history.is_fresh((width, height))
            } else {
                final(self).history == old(self).history
            },
            final(self).current == old(self).current,
            final(self).frame_records == old(self).frame_records,
            final(self).queue == old(self).queue,
    {
        self.history.resize(width, height)
    }

    /// What to draw in the next frame. `still` says whether the camera equals
    /// the previous frame's, if there was one.
    ///
    /// The camera moves every frame, so each frame builds on the previous
    /// one's history by reprojection, as live mode does while moving.
    pub fn begin_frame(&mut self, camera: CameraPose, still: bool) -> (plan: FramePlan)
        requires
            old(self).wf(),
        ensures
            final(self).wf(),
            final(self).history.prev_camera == Some(camera),
            final(self).history.accumulation == old(self).history.accumulation,
            final(self).current == old(self).current,
            final(self).frame_records == old(self).frame_records,
            final(self).queue == old(self).queue,
            plan.frame == old(self).frame_records@.len(),
            plan.samples == old(self).current.def.samples,
            (plan.history, plan.prev) == history_for(old(self).history.prev_camera, camera, still),
            old(self).history.prev_camera is None ==> plan.history == HISTORY_NONE && plan.prev
                == camera,
            old(self).history.prev_camera matches Some(prev) ==> {
                &&& plan.prev == prev
                &&& plan.history == HISTORY_STILL <==> still
                &&& plan.history == HISTORY_MOVED <==> !still
            },
    {
        let (history, prev): (u32, CameraPose) = self.history.begin_frame(camera, still);
        FramePlan {
            frame: self.frame_records.len() as u32,
            history,
            prev,
            samples: self.current.def.samples,
        }
    }

    /// The frame has been rendered: record how long it took, and let the next
    /// one read what it wrote.
    pub fn end_frame(&mut self, t: u32, time_us: u64, camera: CameraPose)
        requires
            old(self).wf(),
            old(self).frame_records@.len() < u32::MAX,
        ensures
            final(self).wf(),
            final(self).frame_records@ == old(self).frame_records@.push(
                FrameRecord {
                    frame: old(self).frame_records@.len() as u32,
                    t,
                    time_us,
                    camera,
                },
            ),
            !old(self).done() ==> final(self).frames_left() == old(self).frames_left() - 1,
            final(self).history.accumulation.size == old(self).history.accumulation.size,
            final(self).history.accumulation.group() == 1
                - old(self).history.accumulation.group(),
            final(self).history.prev_camera == old(self).history.prev_camera,
            final(self).current == old(self).current,
            final(self).queue == old(self).queue,
    {
        let frame: u32 = self.frame_records.len() as u32;
        self.history.end_frame();
        self.frame_records.push(FrameRecord { frame, t, time_us, camera });
    }
}

/// A definition can be run just if it asks for a frame, for a sample, and gives at
/// least four points of each path. Where it cannot be run, the words are those on
/// the first of these that is wrong, and a missing point's count is told.
pub proof fn law_load_refusals(name: Seq<char>, def: BenchmarkFile)
    ensures
        load_error(name, def) is None <==> def.frame_count >= 1 && def.samples >= 1
            && def.position@.len() >= 4 && def.look_at@.len() >= 4,
        def.frame_count == 0 ==> load_error(name, def) == Some(
            "Benchmark "@ + name + " needs at least 1 frame"@,
        ),
        def.frame_count >= 1 && def.samples == 0 ==> load_error(name, def) == Some(
            "Benchmark "@ + name + " needs at least 1 sample per pixel"@,
        ),
        def.frame_count >= 1 && def.samples >= 1 && def.position@.len() <= 3 ==> load_error(
            name,
            def,
        ) == Some(
            "Benchmark "@ + name + " needs at least 4 position points, got "@ + dec_nat(
                def.position@.len(),
            ),
        ),
        def.frame_count >= 1 && def.samples >= 1 && def.position@.len() >= 4 && def.look_at@.len()
            <= 3 ==> load_error(name, def) == Some(
            "Benchmark "@ + name + " needs at least 4 look_at points, got "@ + dec_nat(
                def.look_at@.len(),
            ),
        ),
{
}

/// Of benchmarks that are queued in order, the first that was not read or cannot
/// be run is the one whose words are told; there are none just if every one was
/// read and can be run.
pub proof fn law_first_failure_is_told(
    read: Seq<(String, Result<BenchmarkFile, String>)>,
    i: int,
)
    requires
        0 <= i <= read.len(),
        forall|j: int|
            0 <= j < i ==> ((#[trigger] read[j]).1 matches Ok(def) && def.frame_count >= 1
                && def.samples >= 1 && def.position@.len() >= 4 && def.look_at@.len() >= 4),
    ensures
        i == read.len() ==> first_failure(read) is None,
        i < read.len() && read[i].1 is Err ==> first_failure(read) == Some(
            read[i].1->Err_0@,
        ),
        i < read.len() && (read[i].1 matches Ok(def) && (def.frame_count == 0 || def.samples == 0
            || def.position@.len() <= 3 || def.look_at@.len() <= 3)) ==> {
            &&& first_failure(read) is Some
            &&& first_failure(read) == load_error(read[i].0@, read[i].1->Ok_0)
        },
    decreases i,
{
    if i > 0 {
        let rest = read.skip(1);
        assert(read[0].1 is Ok);
        law_load_refusals(read[0].0@, read[0].1->Ok_0);
        assert forall|j: int| 0 <= j < i - 1 implies ((#[trigger] rest[j]).1 matches Ok(def)
            && def.frame_count >= 1 && def.samples >= 1 && def.position@.len() >= 4
            && def.look_at@.len() >= 4) by {
            assert(rest[j] == read[j + 1]);
        }
        law_first_failure_is_told(rest, i - 1);
        if i < read.len() {
            assert(rest[i - 1] == read[i]);
        }
    } else if read.len() > 0 && read[0].1 is Ok {
        law_load_refusals(read[0].0@, read[0].1->Ok_0);
    }
}

/// Frames go to files only in a headless run that was asked to save them.
pub proof fn law_mode_follows_flags(headless: bool, save_frames: bool)
    ensures
        mode_of(headless, save_frames) is Headless <==> headless,
        mode_of(headless, save_frames) is Window <==> !headless,
        headless ==> mode_of(headless, save_frames)->Headless_save_frames == save_frames,
        !headless ==> mode_of(headless, save_frames)->Window_ignores_save_frames == save_frames,
{
}

/// A queue of what was read has one benchmark for each, in the same order, with
/// the same name and the definition that was read for it.
pub proof fn law_queue_keeps_order(
    queue: Seq<QueuedBenchmark>,
    read: Seq<(String, Result<BenchmarkFile, String>)>,
    i: int,
)
    requires
        queues(queue, read),
        0 <= i < read.len(),
    ensures
        queue.len() == read.len(),
        queue[i].name == read[i].0,
        read[i].1 == Ok::<BenchmarkFile, String>(queue[i].def),
{
}

/// The benchmarks that are left to do are the current one and then the queue; it
/// is done when as many frames have been recorded as it asks for, and each frame
/// recorded until then leaves one fewer.
pub proof fn law_run_progress(session: Session)
    ensures
        session.to_do().len() == session.queue@.len() + 1,
        session.to_do()[0] == session.current,
        session.to_do().skip(1) == session.queue@,
        session.done() <==> session.frame_records@.len() >= session.current.def.frame_count,
        !session.done() ==> session.frames_left() + session.frame_records@.len()
            == session.current.def.frame_count,
{
    assert(session.to_do().skip(1) =~= session.queue@);
}

} // verus!
