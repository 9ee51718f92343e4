//! Grammars that are spread over several files.
//!
//! The declarations of included files come before those of the file that includes
//! them. Reading files is left to the caller: the walk says which file to open
//! next, and is told what stands in it.
use super::compile;
use super::compile::{parse_declarations, TulipacError, TulipacFault};
use super::syntax;
use super::syntax::{DeclModel, Declarations};
use crate::codec::CodecMetadata;
use crate::text;
use vstd::prelude::*;

verus! {

/// Alto-compatible reader for Tulipac `.tag` grammars.
#[derive(Clone, Copy, Debug, Default)]
pub struct TulipacInputCodec;

impl TulipacInputCodec {
    /// A codec has no state.
    pub fn new() -> (r: Self)
        ensures
            r == TulipacInputCodec,
    {
        TulipacInputCodec
    }

    pub fn metadata(&self) -> (r: CodecMetadata)
        ensures
            r == (CodecMetadata {
                name: "tulipac",
                description: "TAG grammar (Tulipac format)",
                extension: Some("tag"),
            }),
    {
        CodecMetadata {
            name: "tulipac",
            description: "TAG grammar (Tulipac format)",
            extension: Some("tag"),
        }
    }
}

/// A file whose declarations wait for the files that it includes.
struct OpenFile {
    path: String,
    includes: Vec<String>,
    next: usize,
    own: Declarations,
}

/// A file whose declarations wait for the files that it includes.
pub struct OpenModel {
    pub path: Seq<char>,
    /// The files that it includes.
    pub includes: Seq<Seq<char>>,
    /// How many of them have been asked for.
    pub next: nat,
    /// Its own declarations, without the inclusions.
    pub own: DeclModel,
}

impl View for OpenFile {
    type V = OpenModel;

    closed spec fn view(&self) -> OpenModel {
        OpenModel {
            path: self.path@,
            includes: text::texts(self.includes@),
            next: self.next as nat,
            own: self.own@,
        }
    }
}

/// How far a walk has come.
pub struct WalkModel {
    /// The open files, each included by the one before it.
    pub open: Seq<OpenModel>,
    /// The declarations of the files that are finished.
    pub collected: DeclModel,
}

/// A walk over a grammar file and the files that it includes.
pub struct IncludeWalk {
    open: Vec<OpenFile>,
    collected: Declarations,
}

/// What a walk asks for.
pub enum WalkStep {
    /// The file named `name`, to be looked up beside the open file at `base`.
    Open { base: String, name: String },
    /// Nothing more: all files are finished.
    Finished,
}

spec fn open_models(list: Seq<OpenFile>) -> Seq<OpenModel> {
    Seq::new(list.len(), |i: int| list[i]@)
}

impl View for IncludeWalk {
    type V = WalkModel;

    closed spec fn view(&self) -> WalkModel {
        WalkModel { open: open_models(self.open@), collected: self.collected@ }
    }
}

/// Whether the file at `path` is open.
pub open spec fn is_open(open: Seq<OpenModel>, path: Seq<char>) -> bool {
    exists|i: int| 0 <= i < open.len() && (#[trigger] open[i]).path == path
}

/// Whether no file is open twice.
pub open spec fn opened_once(open: Seq<OpenModel>) -> bool {
    forall|i: int, j: int|
        0 <= i < j < open.len() ==> (#[trigger] open[i]).path != (#[trigger] open[j]).path
}

/// Declarations without their inclusions.
pub open spec fn without_includes(d: DeclModel) -> DeclModel {
    DeclModel { includes: Seq::empty(), ..d }
}

/// The walk with one more open file.
pub open spec fn with_open(walk: WalkModel, path: Seq<char>, d: DeclModel) -> WalkModel {
    let file = OpenModel { path, includes: d.includes, next: 0, own: without_includes(d) };
    WalkModel { open: walk.open.push(file), ..walk }
}

/// The walk after the finished files at its end are closed.
pub open spec fn settled(walk: WalkModel) -> WalkModel
    decreases walk.open.len(),
{
    if walk.open.len() == 0 || walk.open.last().next < walk.open.last().includes.len() {
        walk
    } else {
        settled(
            WalkModel {
                open: walk.open.drop_last(),
                collected: syntax::both(walk.collected, walk.open.last().own),
            },
        )
    }
}

impl IncludeWalk {
    #[verifier::type_invariant]
    spec fn wf(&self) -> bool {
        &&& opened_once(open_models(self.open@))
        &&& self.collected.wf()
        &&& forall|i: int| 0 <= i < self.open@.len() ==> (#[trigger] self.open@[i]).own.wf()
    }

    /// A walk that has not opened a file.
    pub fn new() -> (w: Self)
        ensures
            w@.open == Seq::<OpenModel>::empty(),
            w@.collected == syntax::no_declarations(),
    {
        let w = IncludeWalk { open: Vec::new(), collected: Declarations::new() };
        assert(open_models(w.open@) =~= Seq::<OpenModel>::empty());
        w
    }

    /// Whether the file at `path` is open already, so that opening it again would
    /// never end.
    pub fn closes_cycle(&self, path: &String) -> (b: bool)
        ensures
            b == is_open(self@.open, path@),
    {
        let mut i: usize = 0;
        while i < self.open.len()
            invariant
                i <= self.open@.len(),
                forall|j: int| 0 <= j < i ==> (#[trigger] open_models(self.open@)[j]).path != path@,
            decreases self.open@.len() - i,
        {
            assert(open_models(self.open@)[i as int] == self.open@[i as int]@);
            if text::same_text(&self.open[i].path, path) {
                return true;
            }
            i += 1;
        }
        false
    }

    /// Opens the file at `path`, in which `input` stands.
    pub fn open(&mut self, path: String, input: &str) -> (r: Result<(), TulipacError>)
        ensures
            is_open(old(self)@.open, path@) ==> final(self)@ == old(self)@ && (r matches Err(e)
                && e@ == TulipacFault::Cycle(path@)),
            !is_open(old(self)@.open, path@) ==> match compile::parsed(input@) {
                Ok(d) => r is Ok && final(self)@ == with_open(old(self)@, path@, d),
                Err(fault) => final(self)@ == old(self)@ && (r matches Err(e) && e@ == fault),
            },
            opened_once(final(self)@.open),
    {
        proof {
            use_type_invariant(&*self);
        }
        if self.closes_cycle(&path) {
            return Err(TulipacError::Cycle(path));
        }
        let mut d = parse_declarations(input)?;
        let ghost model = d@;
        let mut includes: Vec<String> = Vec::new();
        std::mem::swap(&mut includes, &mut d.includes);
        let file = OpenFile { path, includes, next: 0, own: d };
        proof {
            assert(text::texts(d.includes@) =~= Seq::<Seq<char>>::empty());
            assert(file@.own == without_includes(model));
            assert(file.own.wf());
        }
        let ghost before = self.open@;
        let mut open: Vec<OpenFile> = Vec::new();
        std::mem::swap(&mut open, &mut self.open);
        open.push(file);
        proof {
            let models = open_models(before);
            let now = open_models(open@);
            assert(now =~= models.push(file@));
            assert forall|i: int, j: int| 0 <= i < j < now.len() implies (#[trigger] now[i]).path
                != (#[trigger] now[j]).path by {
                if j == models.len() {
                    assert(models[i].path != file@.path);
                } else {
                    assert(models[i].path != models[j].path);
                }
            }
        }
        self.open = open;
        Ok(())
    }

    /// Closes the files at the end that have no inclusion left, and asks for the next
    /// inclusion of the last open file.
    pub fn next(&mut self) -> (r: WalkStep)
        ensures
            ({
                let walk = settled(old(self)@);
                match r {
                    WalkStep::Open { base, name } => {
                        &&& walk.open.len() > 0
                        &&& base@ == walk.open.last().path
                        &&& name@ == walk.open.last().includes[walk.open.last().next as int]
                        &&& final(self)@.collected == walk.collected
                        &&& final(self)@.open == walk.open.drop_last().push(
                            (OpenModel { next: walk.open.last().next + 1, ..walk.open.last() }),
                        )
                    },
                    WalkStep::Finished => walk.open.len() == 0 && final(self)@ == walk,
                }
            }),
    {
        proof {
            use_type_invariant(&*self);
        }
        let ghost start = self@;
        let mut held = IncludeWalk::new();
        std::mem::swap(self, &mut held);
        let IncludeWalk { mut open, mut collected } = held;
        let mut step = WalkStep::Finished;
        let mut asked = false;
        while open.len() > 0 && !asked
            invariant
                !asked ==> settled(start) == settled(
                    WalkModel { open: open_models(open@), collected: collected@ },
                ) && step == WalkStep::Finished,
                asked ==> (step matches WalkStep::Open { base, name } && {
                    let walk = settled(start);
                    &&& walk.open.len() > 0
                    &&& base@ == walk.open.last().path
                    &&& name@ == walk.open.last().includes[walk.open.last().next as int]
                    &&& collected@ == walk.collected
                    &&& open_models(open@) == walk.open.drop_last().push(
                        (OpenModel { next: walk.open.last().next + 1, ..walk.open.last() }),
                    )
                }),
                opened_once(open_models(open@)),
                collected.wf(),
                forall|i: int| 0 <= i < open@.len() ==> (#[trigger] open@[i]).own.wf(),
            decreases open@.len() + (if asked {
                0int
            } else {
                1
            }),
        {
            let ghost before = open@;
            let ghost walk = WalkModel { open: open_models(open@), collected: collected@ };
            let mut file = match open.pop() {
                Some(file) => file,
                None => {
                    return WalkStep::Finished;
                },
            };
            proof {
                assert(open_models(before).last() == file@);
                assert(open_models(before).drop_last() =~= open_models(open@));
                assert forall|i: int, j: int| 0 <= i < j < open@.len() implies (
                #[trigger] open_models(open@)[i]).path != (#[trigger] open_models(open@)[j]).path by {
                    assert(open_models(before)[i].path != open_models(before)[j].path);
                }
            }
            if file.next < file.includes.len() {
                let base = text::copy_text(&file.path);
                let name = text::copy_text(&file.includes[file.next]);
                let ghost old_file = file@;
                file.next = file.next + 1;
                proof {
                    assert(settled(walk) == walk);
                    assert(file@ == OpenModel { next: old_file.next + 1, ..old_file });
                }
                open.push(file);
                proof {
                    assert(open_models(open@) =~= open_models(before).drop_last().push(file@));
                    assert forall|i: int, j: int| 0 <= i < j < open@.len() implies (
                    #[trigger] open_models(open@)[i]).path != (
                    #[trigger] open_models(open@)[j]).path by {
                        assert(open_models(before)[i].path != open_models(before)[j].path);
                    }
                }
                step = WalkStep::Open { base, name };
                asked = true;
            } else {
                collected.extend(file.own);
            }
        }
        *self = IncludeWalk { open, collected };
        step
    }

    /// The declarations of all files, once the walk is finished.
    pub fn into_declarations(self) -> (d: Declarations)
        ensures
            d.wf(),
            d@ == self@.collected,
    {
        proof {
            use_type_invariant(&self);
        }
        self.collected
    }
}

} // verus!
