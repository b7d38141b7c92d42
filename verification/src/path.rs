//! Path segments: the tokens that make up a key into the action repository.
//!
//! A path alternates seats and actions. Joined with `/` behind the repository's
//! root it addresses one node of the repository.

use vstd::prelude::*;
use vstd::string::StringExecFns;
use crate::position::Position;

verus! {

/// One token of a path: a seat, or the name of an action such as `call`,
/// `allin`, `fold` or a raise-size label.
#[derive(Debug, PartialEq, Eq)]
pub enum PathSegment {
    Seat(Position),
    Action(String),
}

/// What a [`PathSegment`] stands for in contracts.
pub enum SegmentView {
    Seat(Position),
    Action(Seq<char>),
}

impl View for PathSegment {
    type V = SegmentView;

    open spec fn view(&self) -> SegmentView {
        match self {
            PathSegment::Seat(p) => SegmentView::Seat(*p),
            PathSegment::Action(a) => SegmentView::Action(a@),
        }
    }
}

impl DeepView for PathSegment {
    type V = SegmentView;

    open spec fn deep_view(&self) -> SegmentView {
        self@
    }
}

/// The text of a segment: a seat's name, or the action's name as it is.
pub open spec fn segment_name(segment: SegmentView) -> Seq<char> {
    match segment {
        SegmentView::Seat(p) => p.spec_name(),
        SegmentView::Action(a) => a,
    }
}

/// `root` followed by each segment of `path` in turn, every segment behind a `/`.
pub open spec fn joined(root: Seq<char>, path: Seq<SegmentView>) -> Seq<char>
    decreases path.len(),
{
    if path.len() == 0 {
        root
    } else {
        joined(root, path.drop_last()) + seq!['/'] + segment_name(path.last())
    }
}

/// The name of the range file of `seat` below the node `key`.
pub open spec fn range_file_name(key: Seq<char>, seat: Position) -> Seq<char> {
    key + seq!['/'] + seat.spec_name() + ".txt"@
}

impl PathSegment {
    /// The segment's text.
    pub fn name(&self) -> (r: String)
        ensures
            r@ == segment_name(self@),
    {
        match self {
            PathSegment::Seat(p) => p.name().to_owned(),
            PathSegment::Action(a) => a.clone(),
        }
    }
}

/// The repository key of `path` below `root`: the root and the segments,
/// joined with `/`.
pub fn join_path(root: &str, path: &Vec<PathSegment>) -> (key: String)
    ensures
        key@ == joined(root@, path.deep_view()),
{
    let mut key = root.to_owned();
    let mut i: usize = 0;
    while i < path.len()
        invariant
            i <= path.len(),
            key@ == joined(root@, path.deep_view().take(i as int)),
        decreases path.len() - i,
    {
        proof {
            let upto = path.deep_view().take(i + 1);
            assert(upto.drop_last() =~= path.deep_view().take(i as int));
            assert(upto.last() == path[i as int]@);
            reveal_strlit("/");
            assert("/"@ =~= seq!['/']);
        }
        key.append("/");
        match &path[i] {
            PathSegment::Seat(p) => key.append(p.name()),
            PathSegment::Action(a) => key.append(a.as_str()),
        }
        i += 1;
    }
    assert(path.deep_view().take(path.len() as int) =~= path.deep_view());
    key
}

/// The name of the file that holds the range of `seat` at the node `key`:
/// the key, a `/`, the seat's name and the ending `.txt`.
pub fn range_file(key: &str, seat: Position) -> (file: String)
    ensures
        file@ == range_file_name(key@, seat),
{
    let mut file = key.to_owned();
    proof {
        reveal_strlit("/");
        assert("/"@ =~= seq!['/']);
    }
    file.append("/");
    file.append(seat.name());
    file.append(".txt");
    file
}

} // verus!
