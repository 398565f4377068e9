//! Where a dependency of a program is to be fetched from.

use vstd::prelude::*;
use crate::text::{chars_of, split, split_bounds};

verus! {

/// Where the hosted repositories are: a dependency named `owner/name` is
/// the repository of that name there.
pub open spec fn host() -> Seq<char> {
    "https://github.com/"@
}

/// How a program names a dependency: by its address, or by a name.
#[derive(Debug)]
pub enum DependencySource {
    Url(String),
    Name(String),
}

/// The mathematical value of a [`DependencySource`].
pub enum DependencySourceView {
    Url(Seq<char>),
    Name(Seq<char>),
}

impl View for DependencySource {
    type V = DependencySourceView;

    open spec fn view(&self) -> DependencySourceView {
        match self {
            DependencySource::Url(a) => DependencySourceView::Url(a@),
            DependencySource::Name(b) => DependencySourceView::Name(b@),
        }
    }
}

/// Why a dependency has no address.
#[derive(Debug)]
pub enum DependencyError {
    /// The name has more than two pieces between its `/`.
    InvalidName { name: String, parent: String },
    /// The index does not list the name.
    NotListed { name: String, parent: String },
}

/// The mathematical value of a [`DependencyError`].
pub enum DependencyErrorView {
    InvalidName { name: Seq<char>, parent: Seq<char> },
    NotListed { name: Seq<char>, parent: Seq<char> },
}

impl View for DependencyError {
    type V = DependencyErrorView;

    open spec fn view(&self) -> DependencyErrorView {
        match self {
            DependencyError::InvalidName { name, parent } => DependencyErrorView::InvalidName {
                name: name@,
                parent: parent@,
            },
            DependencyError::NotListed { name, parent } => DependencyErrorView::NotListed {
                name: name@,
                parent: parent@,
            },
        }
    }
}

/// How many pieces a name has between its `/`.
pub open spec fn pieces(name: Seq<char>) -> nat {
    split(name, '/').len()
}

/// Whether the address of the dependency is to be looked up in the index:
/// it is named, by a name of one piece.
pub open spec fn looked_up(source: DependencySourceView) -> bool {
    source matches DependencySourceView::Name(b) && pieces(b) < 2
}

/// The address of a dependency of the package `parent`, given what the index
/// lists for it: an address is itself; a name of two pieces is the repository
/// of that name on the host; a name of one piece is what the index lists for
/// it, and an error where the index does not list it; a name of more pieces
/// is an error.
pub open spec fn address(
    source: DependencySourceView,
    parent: Seq<char>,
    listed: Option<Seq<char>>,
) -> Result<Seq<char>, DependencyErrorView> {
    match source {
        DependencySourceView::Url(a) => Ok(a),
        DependencySourceView::Name(b) => if pieces(b) > 2 {
            Err(DependencyErrorView::InvalidName { name: b, parent })
        } else if pieces(b) == 2 {
            Ok(host() + b)
        } else {
            match listed {
                Some(x) => Ok(x),
                None => Err(DependencyErrorView::NotListed { name: b, parent }),
            }
        },
    }
}

/// The mathematical value of an address or the error in its place.
pub open spec fn located(r: Result<String, DependencyError>) -> Result<
    Seq<char>,
    DependencyErrorView,
> {
    match r {
        Ok(s) => Ok(s@),
        Err(e) => Err(e@),
    }
}

fn count_pieces(name: &String) -> (n: usize)
    ensures
        n == pieces(name@),
{
    let chars = chars_of(name.as_str());
    assert(chars@.subrange(0, chars.len() as int) =~= chars@);
    split_bounds(&chars, 0, chars.len(), '/').len()
}

impl DependencySource {
    /// Whether the address is to be looked up in the index.
    pub fn is_looked_up(&self) -> (r: bool)
        ensures
            r == looked_up(self@),
    {
        match self {
            DependencySource::Url(_) => false,
            DependencySource::Name(b) => count_pieces(b) < 2,
        }
    }

    /// The address of the dependency, for the package `parent_name` that
    /// asks for it. `listed` is what the index lists for the name; it is
    /// read only where [`looked_up`] holds.
    pub fn to_string(&self, parent_name: String, listed: Option<String>) -> (r: Result<
        String,
        DependencyError,
    >)
        ensures
            located(r) == address(
                self@,
                parent_name@,
                match listed {
                    Some(x) => Some(x@),
                    None => None,
                },
            ),
    {
        match self {
            DependencySource::Url(a) => Ok(a.clone()),
            DependencySource::Name(b) => {
                let n = count_pieces(b);
                if n > 2 {
                    Err(DependencyError::InvalidName { name: b.clone(), parent: parent_name })
                } else if n == 2 {
                    let mut out = String::from_str("https://github.com/");
                    out.append(b.as_str());
                    Ok(out)
                } else {
                    match listed {
                        Some(x) => Ok(x),
                        None => Err(
                            DependencyError::NotListed { name: b.clone(), parent: parent_name },
                        ),
                    }
                }
            },
        }
    }
}

} // verus!
