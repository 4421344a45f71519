//! The command surface: which operation a command word selects, and what
//! each operation makes of an archive's bytes or of the members to pack.
use vstd::prelude::*;
use crate::archive::{
    entries_view, extracted_spec, index_spec, pack_spec, sources_view, Archive, Extracted, Source,
};
use crate::header::{ArError, ArFile, EntryView};

verus! {

/// What to do with an archive.
#[derive(Debug, Clone, Copy, PartialEq, Eq, Structural)]
pub enum Operation {
    List,
    Unpack,
    Pack,
}

/// A parsed command line: the archive's path, the members to pack, and the
/// operation.
#[derive(Debug)]
pub struct Config {
    pub file: String,
    pub files: Vec<String>,
    pub operation: Operation,
}

/// The operation that a command word selects: `x` extracts, `ls` lists,
/// `c` creates.
pub open spec fn operation_of(word: Seq<char>) -> Option<Operation> {
    if word == seq!['x'] {
        Some(Operation::Unpack)
    } else if word == seq!['l', 's'] {
        Some(Operation::List)
    } else if word == seq!['c'] {
        Some(Operation::Pack)
    } else {
        None
    }
}

pub open spec fn strings_view(s: Seq<String>) -> Seq<Seq<char>> {
    s.map_values(|x: String| x@)
}

fn select_operation(word: &str) -> (r: Option<Operation>)
    ensures
        r == operation_of(word@),
{
    let n = word.unicode_len();
    if n == 1 {
        let c = word.get_char(0);
        if c == 'x' {
            assert(word@ =~= seq!['x']);
            Some(Operation::Unpack)
        } else if c == 'c' {
            assert(word@ =~= seq!['c']);
            Some(Operation::Pack)
        } else {
            assert(word@ != seq!['x'] && word@ != seq!['c'] && word@ != seq!['l', 's']);
            None
        }
    } else if n == 2 {
        let c0 = word.get_char(0);
        let c1 = word.get_char(1);
        if c0 == 'l' && c1 == 's' {
            assert(word@ =~= seq!['l', 's']);
            Some(Operation::List)
        } else {
            assert(word@ != seq!['l', 's']);
            None
        }
    } else {
        assert(word@ != seq!['x'] && word@ != seq!['c'] && word@ != seq!['l', 's']);
        None
    }
}

impl Config {
    /// Reads a command line: the program name, an operation word, the
    /// archive's path, and for `c` the paths of the members to pack.
    pub fn new(args: &[String]) -> (r: Result<Config, &'static str>)
        ensures
            args@.len() < 3 ==> r == Err::<Config, &'static str>("Incorrect number of arguments."),
            args@.len() >= 3 && operation_of(args@[1]@) is None ==> r == Err::<
                Config,
                &'static str,
            >("Unknown option"),
            args@.len() >= 3 && operation_of(args@[1]@) is Some ==> r is Ok,
            match r {
                Ok(c) => {
                    &&& args@.len() >= 3
                    &&& Some(c.operation) == operation_of(args@[1]@)
                    &&& c.file@ == args@[2]@
                    &&& strings_view(c.files@) == if c.operation == Operation::Pack {
                        strings_view(args@.subrange(3, args@.len() as int))
                    } else {
                        Seq::empty()
                    }
                },
                Err(_) => true,
            },
    {
        if args.len() < 3 {
            return Err("Incorrect number of arguments.");
        }
        let file = args[2].clone();
        let operation = match select_operation(args[1].as_str()) {
            Some(op) => op,
            None => {
                return Err("Unknown option");
            },
        };
        let mut files: Vec<String> = Vec::new();
        if operation == Operation::Pack {
            let mut k: usize = 3;
            while k < args.len()
                invariant
                    3 <= k <= args@.len(),
                    strings_view(files@) == strings_view(args@.subrange(3, k as int)),
                decreases args@.len() - k,
            {
                let a = args[k].clone();
                assert(a@ == args@[k as int]@);
                let ghost prev = files@;
                files.push(a);
                assert(strings_view(files@) =~= strings_view(prev).push(a@));
                assert(args@.subrange(3, k + 1) =~= args@.subrange(3, k as int).push(args@[k as int]));
                k = k + 1;
                assert(strings_view(files@) =~= strings_view(args@.subrange(3, k as int)));
            }
        }
        assert(strings_view(files@) =~= if operation == Operation::Pack {
            strings_view(args@.subrange(3, args@.len() as int))
        } else {
            Seq::empty()
        });
        Ok(Config { file, files, operation })
    }
}

/// What an operation produced.
#[derive(Debug)]
pub enum Outcome {
    /// The index of the archive, for display.
    Listing(Vec<ArFile>),
    /// The members taken out of the archive, to be written out.
    Extracted(Vec<Extracted>),
    /// The bytes of the new archive.
    Packed(Vec<u8>),
}

pub enum OutcomeView {
    Listing(Seq<EntryView>),
    Extracted(Seq<(Seq<u8>, Seq<u8>, int)>),
    Packed(Seq<u8>),
}

impl View for Outcome {
    type V = OutcomeView;

    open spec fn view(&self) -> OutcomeView {
        match self {
            Outcome::Listing(fs) => OutcomeView::Listing(entries_view(fs@)),
            Outcome::Extracted(xs) => OutcomeView::Extracted(xs@.map_values(|x: Extracted| x@)),
            Outcome::Packed(b) => OutcomeView::Packed(b@),
        }
    }
}

pub open spec fn outcome_result_view(r: Result<Outcome, ArError>) -> Result<OutcomeView, ArError> {
    match r {
        Ok(o) => Ok(o@),
        Err(e) => Err(e),
    }
}

/// What `op` makes of the archive bytes `data` (to list or extract) or of
/// the members `ss` (to pack).
pub open spec fn run_spec(op: Operation, data: Seq<u8>, ss: Seq<crate::archive::SourceView>) -> Result<
    OutcomeView,
    ArError,
> {
    match op {
        Operation::List => match index_spec(data) {
            Ok(es) => Ok(OutcomeView::Listing(es)),
            Err(e) => Err(e),
        },
        Operation::Unpack => match index_spec(data) {
            Ok(es) => Ok(
                OutcomeView::Extracted(es.map_values(|e: EntryView| extracted_spec(data, e))),
            ),
            Err(e) => Err(e),
        },
        Operation::Pack => match pack_spec(ss) {
            Ok(b) => Ok(OutcomeView::Packed(b)),
            Err(e) => Err(e),
        },
    }
}

/// Carries out the configured operation: lists or extracts the archive held
/// in `archive`, or packs `sources` into a new one.
pub fn run(config: &Config, archive: Vec<u8>, sources: &Vec<Source>) -> (r: Result<Outcome, ArError>)
    ensures
        outcome_result_view(r) == run_spec(config.operation, archive@, sources_view(sources@)),
{
    match config.operation {
        Operation::List => {
            let mut a = Archive::from_bytes(archive);
            match a.read_files() {
                Ok(()) => Ok(Outcome::Listing(a.files)),
                Err(e) => Err(e),
            }
        },
        Operation::Unpack => {
            let mut a = Archive::from_bytes(archive);
            match a.read_files() {
                Ok(()) => {
                    let xs = a.unpack_files();
                    let ghost es = entries_view(a.files@);
                    assert(a.data@ == archive@);
                    assert(xs@.map_values(|x: Extracted| x@) =~= es.map_values(
                        |e: EntryView| extracted_spec(archive@, e),
                    ));
                    Ok(Outcome::Extracted(xs))
                },
                Err(e) => Err(e),
            }
        },
        Operation::Pack => {
            let mut a = Archive::new();
            match a.pack_files(sources) {
                Ok(()) => Ok(Outcome::Packed(a.data)),
                Err(e) => Err(e),
            }
        },
    }
}

} // verus!
