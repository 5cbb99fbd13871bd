//! The stages that follow discovery: ordering, filtering and rendering.

use vstd::prelude::*;
use crate::filter::{survivors, InTextFileFilter};
use crate::fs::FsController;
use crate::occurrence::{get_occurence_path, views, Context, Kind, Occurence};
use crate::path_order::{lemma_path_order, path_before, path_less};
use crate::sort::{decides, sort_by_order, sorted_by, strict_weak_order};
use crate::text::chars_of;

verus! {

/// The entries are in ascending order of their paths.
pub open spec fn sorted_paths(s: Seq<(Kind, Seq<char>)>) -> bool {
    forall|i: int, j: int| 0 <= i < j < s.len() ==> !#[trigger] path_before(s[j].1, s[i].1)
}

/// The order of found entries by their paths.
pub open spec fn occurence_order() -> spec_fn(Occurence, Occurence) -> bool {
    |a: Occurence, b: Occurence| path_before(a@.1, b@.1)
}

/// `a`'s path comes before `b`'s.
pub fn occurence_before(a: &Occurence, b: &Occurence) -> (r: bool)
    ensures
        r == path_before(a@.1, b@.1),
{
    let x = chars_of(get_occurence_path(a).as_str());
    let y = chars_of(get_occurence_path(b).as_str());
    path_less(&x, &y)
}

/// Rearranging a list rearranges the kinds and paths of its entries alike.
proof fn lemma_views_multiset(a: Seq<Occurence>, b: Seq<Occurence>)
    requires
        a.to_multiset() == b.to_multiset(),
    ensures
        views(a).to_multiset() == views(b).to_multiset(),
    decreases a.len(),
{
    broadcast use vstd::seq_lib::group_to_multiset_ensures;
    broadcast use vstd::multiset::group_multiset_axioms;

    if a.len() == 0 {
        assert(b.to_multiset().len() == 0);
        assert(views(a) =~= Seq::<(Kind, Seq<char>)>::empty());
        assert(views(b) =~= Seq::<(Kind, Seq<char>)>::empty());
    } else {
        let x = a.last();
        assert(a.contains(x)) by {
            assert(a[a.len() - 1] == x);
        }
        assert(b.to_multiset().count(x) > 0);
        assert(b.contains(x));
        let j = choose|j: int| 0 <= j < b.len() && b[j] == x;
        let b2 = b.remove(j);
        assert(a.drop_last() =~= a.remove(a.len() - 1));
        assert(a.drop_last().to_multiset() =~= b2.to_multiset());
        lemma_views_multiset(a.drop_last(), b2);
        assert(views(a) =~= views(a.drop_last()).push(x@));
        assert(views(b2) =~= views(b).remove(j));
        assert(views(b)[j] == x@);
        assert(views(b).to_multiset().count(x@) > 0) by {
            assert(views(b).contains(x@));
        }
        assert(views(a).to_multiset() =~= views(b).to_multiset());
    }
}

pub struct SortStrategy {}

impl SortStrategy {
    /// Orders the entries by their paths.
    pub fn post_process(&self, context: &mut Context) -> (r: Result<(), String>)
        ensures
            r is Ok,
            final(context).name@ == old(context).name@,
            views(final(context).files@).to_multiset() == views(old(context).files@).to_multiset(),
            sorted_paths(views(final(context).files@)),
    {
        proof {
            lemma_path_order();
        }
        sort_by_order(&mut context.files, &occurence_before, Ghost(occurence_order()));
        proof {
            lemma_views_multiset(context.files@, old(context).files@);
            let s = context.files@;
            assert forall|i: int, j: int|
                0 <= i < j < views(s).len() implies !#[trigger] path_before(
                views(s)[j].1,
                views(s)[i].1,
            ) by {
                assert(!crate::sort::less(occurence_order(), s[j], s[i]));
            }
        }
        Ok(())
    }
}

/// One stage after discovery.
pub enum PostProcessStrategy {
    Sort(SortStrategy),
    InTextFile(InTextFileFilter),
}

/// `after` is what `stage` may leave of `before`.
pub open spec fn stage_done<F: FsController>(
    fs: F,
    stage: PostProcessStrategy,
    before: Seq<(Kind, Seq<char>)>,
    after: Seq<(Kind, Seq<char>)>,
) -> bool {
    match stage {
        PostProcessStrategy::Sort(_) => after.to_multiset() == before.to_multiset() && sorted_paths(
            after,
        ),
        PostProcessStrategy::InTextFile(f) => after == survivors(fs, before, f.content@),
    }
}

/// `after` is what `stages`, run in order, may leave of `before`.
pub open spec fn stages_done<F: FsController>(
    fs: F,
    stages: Seq<PostProcessStrategy>,
    before: Seq<(Kind, Seq<char>)>,
    after: Seq<(Kind, Seq<char>)>,
) -> bool
    decreases stages.len(),
{
    if stages.len() == 0 {
        after == before
    } else {
        exists|mid: Seq<(Kind, Seq<char>)>|
            stages_done(fs, stages.drop_last(), before, mid) && #[trigger] stage_done(
                fs,
                stages.last(),
                mid,
                after,
            )
    }
}

impl PostProcessStrategy {
    pub fn post_process<F: FsController>(&self, fs: &F, context: &mut Context) -> (r: Result<
        (),
        String,
    >)
        ensures
            r is Ok,
            final(context).name@ == old(context).name@,
            stage_done(*fs, *self, views(old(context).files@), views(final(context).files@)),
    {
        match self {
            PostProcessStrategy::Sort(s) => s.post_process(context),
            PostProcessStrategy::InTextFile(f) => f.post_process(fs, context),
        }
    }
}

/// Stages run one after another.
pub struct MultiplePostProcess {
    pub strategies: Vec<PostProcessStrategy>,
}

impl MultiplePostProcess {
    pub fn new() -> (r: MultiplePostProcess)
        ensures
            r.strategies@.len() == 0,
    {
        MultiplePostProcess { strategies: Vec::new() }
    }

    /// Adds a stage that runs after those added before it.
    pub fn add_strategy(&mut self, strategy: PostProcessStrategy)
        ensures
            final(self).strategies@ == old(self).strategies@.push(strategy),
    {
        self.strategies.push(strategy)
    }

    /// Runs every stage, in the order in which they were added.
    pub fn post_process<F: FsController>(&self, fs: &F, context: &mut Context) -> (r: Result<
        (),
        String,
    >)
        ensures
            r is Ok,
            final(context).name@ == old(context).name@,
            stages_done(
                *fs,
                self.strategies@,
                views(old(context).files@),
                views(final(context).files@),
            ),
    {
        let mut i: usize = 0;
        proof {
            assert(self.strategies@.take(0).len() == 0);
        }
        while i < self.strategies.len()
            invariant
                i <= self.strategies.len(),
                context.name@ == old(context).name@,
                stages_done(
                    *fs,
                    self.strategies@.take(i as int),
                    views(old(context).files@),
                    views(context.files@),
                ),
            decreases self.strategies.len() - i,
        {
            let ghost mid = views(context.files@);
            let _ = self.strategies[i].post_process(fs, context);
            proof {
                let t = self.strategies@.take(i + 1);
                assert(t.drop_last() =~= self.strategies@.take(i as int));
                assert(t.last() == self.strategies@[i as int]);
                assert(stage_done(*fs, t.last(), mid, views(context.files@)));
            }
            i += 1;
        }
        proof {
            assert(self.strategies@.take(i as int) =~= self.strategies@);
        }
        Ok(())
    }
}

/// The output lines for `s`: the absolute form of each path, in order.
pub open spec fn rendered<F: FsController>(fs: F, s: Seq<(Kind, Seq<char>)>) -> Seq<Seq<char>> {
    s.map_values(|o: (Kind, Seq<char>)| fs.canonical(o.1))
}

/// The absolute form of each entry's path, in the order of the entries.
pub fn render<F: FsController>(fs: &F, context: &Context) -> (r: Vec<String>)
    ensures
        r@.map_values(|s: String| s@) == rendered(*fs, views(context.files@)),
{
    let mut lines: Vec<String> = Vec::new();
    let mut i: usize = 0;
    while i < context.files.len()
        invariant
            i <= context.files.len(),
            lines@.map_values(|s: String| s@) == rendered(*fs, views(context.files@.take(i as int))),
        decreases context.files.len() - i,
    {
        let line = fs.canonicalize(get_occurence_path(&context.files[i]).as_str());
        let ghost before = lines@;
        lines.push(line);
        proof {
            assert(lines@.map_values(|s: String| s@) =~= before.map_values(|s: String| s@).push(
                fs.canonical(context.files@[i as int]@.1),
            ));
            assert(views(context.files@.take(i + 1)) =~= views(context.files@.take(i as int)).push(
                context.files@[i as int]@,
            ));
            assert(lines@.map_values(|s: String| s@) =~= rendered(
                *fs,
                views(context.files@.take(i + 1)),
            ));
        }
        i += 1;
    }
    proof {
        assert(context.files@.take(i as int) =~= context.files@);
    }
    lines
}

/// Output to the console.
pub struct PrintConsoleStrategy {}

/// Output to a file, created or truncated.
pub struct PrintFileStrategy {
    pub filename: String,
}

impl PrintFileStrategy {
    pub fn new(filename: String) -> (r: PrintFileStrategy)
        ensures
            r.filename == filename,
    {
        PrintFileStrategy { filename }
    }
}

/// Where the output goes.
pub enum PrintStrategy {
    Console(PrintConsoleStrategy),
    File(PrintFileStrategy),
}

impl PrintStrategy {
    /// The lines to write, one per entry.
    pub fn print<F: FsController>(&self, fs: &F, context: &Context) -> (r: Vec<String>)
        ensures
            r@.map_values(|s: String| s@) == rendered(*fs, views(context.files@)),
    {
        render(fs, context)
    }

    /// The file that the output goes to, if it goes to a file.
    pub fn target(&self) -> (r: Option<&String>)
        ensures
            match self {
                PrintStrategy::Console(_) => r is None,
                PrintStrategy::File(f) => r == Some(&f.filename),
            },
    {
        match self {
            PrintStrategy::Console(_) => None,
            PrintStrategy::File(f) => Some(&f.filename),
        }
    }
}

} // verus!
