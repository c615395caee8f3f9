//! What the program is asked to do.

use vstd::prelude::*;

verus! {

/// The arguments of the program.
#[derive(Debug)]
pub struct Cli {
    pub command: Option<Commands>,
}

/// The commands of the program.
#[derive(Debug)]
pub enum Commands {
    /// Open a window and render the scene live.
    Live {
        /// Paths traced per pixel per frame.
        samples: u32,
    },
    /// Run benchmark with animated camera path.
    Bench {
        /// Benchmark definition name (loads from bench/configs/<name>.toml).
        /// If not specified, runs all benchmarks in the bench/configs/ directory.
        name: Option<String>,
        /// Render offscreen instead of opening a window, at exactly the size each
        /// config asks for.
        headless: bool,
        /// Save every 100th frame and the last one.
        save_frames: bool,
    },
    /// Generate SVG charts from benchmark results.
    Chart,
}

/// What to do.
pub enum Action {
    Live { samples: u32 },
    RunBench { name: String, headless: bool, save_frames: bool },
    RunAllBenchmarks { headless: bool, save_frames: bool },
    Chart,
}

/// Paths traced per pixel per frame in live mode where none are asked for.
pub const LIVE_SAMPLES: u32 = 1;

impl Cli {
    /// What the arguments ask for. Without a command, the scene is rendered live.
    pub fn action(self) -> (action: Action)
        ensures
            action == match self.command {
                Some(Commands::Live { samples }) => Action::Live { samples },
                Some(Commands::Bench { name: Some(name), headless, save_frames }) => {
                    Action::RunBench { name, headless, save_frames }
                },
                Some(Commands::Bench { name: None, headless, save_frames }) => {
                    Action::RunAllBenchmarks { headless, save_frames }
                },
                Some(Commands::Chart) => Action::Chart,
                None => Action::Live { samples: LIVE_SAMPLES },
            },
            self.command is None ==> action == (Action::Live { samples: 1 }),
    {
        match self.command {
            Some(Commands::Live { samples }) => Action::Live { samples },
            Some(Commands::Bench { name: Some(name), headless, save_frames }) => {
                Action::RunBench { name, headless, save_frames }
            },
            Some(Commands::Bench { name: None, headless, save_frames }) => {
                Action::RunAllBenchmarks { headless, save_frames }
            },
            Some(Commands::Chart) => Action::Chart,
            None => Action::Live { samples: LIVE_SAMPLES },
        }
    }
}

} // verus!
