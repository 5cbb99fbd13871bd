//! A whole search: discovery, the stages after it, and the output lines.

use vstd::prelude::*;
use crate::discovery::{found_under, FindProcess, MAX_DEPTH};
use crate::filter::InTextFileFilter;
use crate::fs::FsController;
use crate::occurrence::{Context, Kind};
use crate::strategies::{
    rendered, stages_done, MultiplePostProcess, PostProcessStrategy, PrintConsoleStrategy,
    PrintFileStrategy, PrintStrategy, SortStrategy,
};

verus! {

/// What a search is asked to do.
pub struct FindAppArgs {
    /// The name to look for.
    pub name: String,
    /// Order the results by path.
    pub sort: bool,
    /// Write the results to this file rather than to the console.
    pub filename: Option<String>,
    /// Keep only the text files that hold this string.
    pub in_file: Option<String>,
}

/// The stages that `args` ask for, in the order in which they run.
pub open spec fn requested_stages(args: FindAppArgs) -> Seq<PostProcessStrategy> {
    let sorting: Seq<PostProcessStrategy> = if args.sort {
        seq![PostProcessStrategy::Sort(SortStrategy {  })]
    } else {
        Seq::empty()
    };
    match args.in_file {
        Some(c) => sorting.push(PostProcessStrategy::InTextFile(InTextFileFilter { content: c })),
        None => sorting,
    }
}

/// The output lines that a search may produce: those of some result that
/// the stages may leave of what discovery found.
pub open spec fn search_outcome<F: FsController>(
    fs: F,
    root: Seq<char>,
    name: Seq<char>,
    stages: Seq<PostProcessStrategy>,
    lines: Seq<Seq<char>>,
) -> bool {
    exists|found: Seq<(Kind, Seq<char>)>, after: Seq<(Kind, Seq<char>)>|
        found_under(fs, root, name, MAX_DEPTH as nat) == Some(found) && #[trigger] stages_done(
            fs,
            stages,
            found,
            after,
        ) && lines == rendered(fs, after)
}

pub struct FindApp<F: FsController> {
    pub request: String,
    pub process_strategy: FindProcess<F>,
    pub post_process_strategy: MultiplePostProcess,
    pub print_strategy: PrintStrategy,
}

impl<F: FsController> FindApp<F> {
    /// A search under `root`, through `fs`, as `args` ask.
    pub fn new(fs: F, root: String, args: FindAppArgs) -> (r: FindApp<F>)
        ensures
            r.request@ == args.name@,
            r.process_strategy.fs == fs,
            r.process_strategy.root@ == root@,
            r.post_process_strategy.strategies@ == requested_stages(args),
            match args.filename {
                Some(f) => r.print_strategy == PrintStrategy::File(PrintFileStrategy { filename: f }),
                None => r.print_strategy == PrintStrategy::Console(PrintConsoleStrategy {  }),
            },
    {
        let ghost spec_args = args;
        let FindAppArgs { name, sort, filename, in_file } = args;
        let mut post_strategies = MultiplePostProcess::new();
        if sort {
            post_strategies.add_strategy(PostProcessStrategy::Sort(SortStrategy {  }));
        }
        if let Some(content) = in_file {
            post_strategies.add_strategy(
                PostProcessStrategy::InTextFile(InTextFileFilter::new(content)),
            );
        }
        proof {
            assert(post_strategies.strategies@ =~= requested_stages(spec_args));
        }
        let print_strategy = match filename {
            Some(filename) => PrintStrategy::File(PrintFileStrategy::new(filename)),
            None => PrintStrategy::Console(PrintConsoleStrategy {  }),
        };
        FindApp {
            request: name,
            process_strategy: FindProcess::new(fs, root),
            post_process_strategy: post_strategies,
            print_strategy,
        }
    }

    /// Runs the search and returns the output lines, or the error of listing
    /// the root.
    pub fn run(&self) -> (r: Result<Vec<String>, String>)
        ensures
            match r {
                Ok(lines) => search_outcome(
                    self.process_strategy.fs,
                    self.process_strategy.root@,
                    self.request@,
                    self.post_process_strategy.strategies@,
                    lines@.map_values(|s: String| s@),
                ),
                Err(_) => self.process_strategy.fs.listing(self.process_strategy.root@) is None,
            },
    {
        let mut context = Context { name: self.request.clone(), files: Vec::new() };
        match self.process_strategy.process(&mut context) {
            Ok(()) => (),
            Err(err) => return Err(err),
        };
        let ghost found = crate::occurrence::views(context.files@);
        let ghost stages = self.post_process_strategy.strategies@;
        let _ = self.post_process_strategy.post_process(&self.process_strategy.fs, &mut context);
        let ghost after = crate::occurrence::views(context.files@);
        let lines = self.print_strategy.print(&self.process_strategy.fs, &context);
        proof {
            assert(stages_done(self.process_strategy.fs, stages, found, after));
        }
        Ok(lines)
    }
}

} // verus!
