//! Path patterns, and the filter that keeps the changes whose paths they
//! select.
//!
//! A pattern is a list of segments separated by dots: a literal, `*` for
//! any one path segment, `**` for any number of them, none included.

use crate::diff::{changes_view, count_changes, path_view, Change, ChangeView, Diff};
use crate::text::str_eq;
use vstd::prelude::*;

verus! {

/// One segment of a pattern.
#[derive(Debug, PartialEq, Eq)]
pub enum PatternSegment {
    /// Matches the path segment with this text.
    Literal(String),
    /// `*`: matches any one path segment.
    SingleWildcard,
    /// `**`: matches any number of path segments, none included.
    DoubleWildcard,
}

/// The mathematical value of a pattern segment.
pub enum SegmentView {
    Literal(Seq<char>),
    SingleWildcard,
    DoubleWildcard,
}

impl View for PatternSegment {
    type V = SegmentView;

    open spec fn view(&self) -> SegmentView {
        match self {
            PatternSegment::Literal(s) => SegmentView::Literal(s@),
            PatternSegment::SingleWildcard => SegmentView::SingleWildcard,
            PatternSegment::DoubleWildcard => SegmentView::DoubleWildcard,
        }
    }
}

impl Clone for PatternSegment {
    /// An independent copy.
    fn clone(&self) -> (r: PatternSegment)
        ensures
            r@ == self@,
    {
        match self {
            PatternSegment::Literal(s) => PatternSegment::Literal(s.clone()),
            PatternSegment::SingleWildcard => PatternSegment::SingleWildcard,
            PatternSegment::DoubleWildcard => PatternSegment::DoubleWildcard,
        }
    }
}

/// A compiled pattern.
#[derive(Debug)]
pub struct PathPattern {
    pub segments: Vec<PatternSegment>,
}

impl Clone for PathPattern {
    /// An independent copy.
    fn clone(&self) -> (r: PathPattern)
        ensures
            r@ == self@,
    {
        let mut segments: Vec<PatternSegment> = Vec::new();
        let mut i: usize = 0;
        while i < self.segments.len()
            invariant
                i <= self.segments.len(),
                segments@.len() == i,
                forall|k: int| 0 <= k < i ==> (#[trigger] segments@[k])@ == self.segments@[k]@,
            decreases self.segments.len() - i,
        {
            segments.push(self.segments[i].clone());
            i += 1;
        }
        let r = PathPattern { segments };
        assert(r@ =~= self@);
        r
    }
}

impl View for PathPattern {
    type V = Seq<SegmentView>;

    open spec fn view(&self) -> Seq<SegmentView> {
        Seq::new(self.segments@.len(), |i: int| self.segments@[i]@)
    }
}

/// The pieces of `s` between its dots; a string without a dot is one
/// piece, and so is the empty string.
pub open spec fn split_dots(s: Seq<char>) -> Seq<Seq<char>>
    decreases s.len(),
{
    if s.len() == 0 {
        seq![Seq::empty()]
    } else {
        let pieces = split_dots(s.drop_last());
        if s.last() == '.' {
            pieces.push(Seq::empty())
        } else {
            pieces.drop_last().push(pieces.last().push(s.last()))
        }
    }
}

/// The segment that a piece of a pattern stands for.
pub open spec fn segment_of(piece: Seq<char>) -> SegmentView {
    if piece == seq!['*', '*'] {
        SegmentView::DoubleWildcard
    } else if piece == seq!['*'] {
        SegmentView::SingleWildcard
    } else {
        SegmentView::Literal(piece)
    }
}

/// The pattern that a string compiles to.
pub open spec fn parse_spec(s: Seq<char>) -> Seq<SegmentView> {
    Seq::new(split_dots(s).len(), |i: int| segment_of(split_dots(s)[i]))
}

/// Whether a pattern matches a path.
pub open spec fn matches_spec(pattern: Seq<SegmentView>, path: Seq<Seq<char>>) -> bool
    decreases pattern.len() + path.len(),
{
    if pattern.len() == 0 {
        path.len() == 0
    } else if path.len() == 0 {
        forall|i: int| 0 <= i < pattern.len() ==> #[trigger] pattern[i] is DoubleWildcard
    } else {
        match pattern[0] {
            SegmentView::Literal(text) => text == path[0] && matches_spec(
                pattern.drop_first(),
                path.drop_first(),
            ),
            SegmentView::SingleWildcard => matches_spec(pattern.drop_first(), path.drop_first()),
            SegmentView::DoubleWildcard => matches_spec(pattern.drop_first(), path) || matches_spec(
                pattern,
                path.drop_first(),
            ),
        }
    }
}

/// The segment for the piece that ends at a dot or at the end of the pattern.
fn segment_for(piece: String) -> (r: PatternSegment)
    ensures
        r@ == segment_of(piece@),
{
    proof {
        reveal_strlit("**");
        reveal_strlit("*");
        assert("**"@ =~= seq!['*', '*']);
        assert("*"@ =~= seq!['*']);
    }
    if str_eq(piece.as_str(), "**") {
        PatternSegment::DoubleWildcard
    } else if str_eq(piece.as_str(), "*") {
        PatternSegment::SingleWildcard
    } else {
        PatternSegment::Literal(piece)
    }
}

impl PathPattern {
    /// Compiles a pattern.
    pub fn parse(pattern: &str) -> (r: PathPattern)
        ensures
            r@ == parse_spec(pattern@),
    {
        let mut segments: Vec<PatternSegment> = Vec::new();
        let mut piece = String::new();
        let ghost mut done: Seq<Seq<char>> = Seq::empty();
        for c in it: pattern.chars()
            invariant
                it.seq() == pattern@,
                split_dots(pattern@.take(it.index() as int)) == done.push(piece@),
                segments@.len() == done.len(),
                forall|k: int| 0 <= k < done.len() ==> (#[trigger] segments@[k])@ == segment_of(done[k]),
        {
            let ghost prefix = pattern@.take(it.index() as int);
            let ghost next = pattern@.take(it.index() + 1);
            proof {
                assert(next.drop_last() =~= prefix);
                assert(next.last() == c);
                assert(done.push(piece@).drop_last() =~= done);
            }
            if c == '.' {
                let mut finished = String::new();
                core::mem::swap(&mut piece, &mut finished);
                proof {
                    done = done.push(finished@);
                }
                segments.push(segment_for(finished));
            } else {
                piece.push(c);
            }
        }
        proof {
            assert(pattern@.take(pattern@.len() as int) =~= pattern@);
            done = done.push(piece@);
        }
        segments.push(segment_for(piece));
        let r = PathPattern { segments };
        assert(r@ =~= parse_spec(pattern@));
        r
    }

    /// Whether the pattern matches the path.
    pub fn matches(&self, path: &[String]) -> (r: bool)
        ensures
            r == matches_spec(self@, path_view(path@)),
    {
        proof {
            assert(self@.skip(0) =~= self@);
            assert(path_view(path@).skip(0) =~= path_view(path@));
        }
        self.matches_recursive(0, path, 0)
    }

    /// Whether the pattern from its segment `from` on matches the path from
    /// its segment `at` on.
    fn matches_recursive(&self, from: usize, path: &[String], at: usize) -> (r: bool)
        requires
            from <= self@.len(),
            at <= path@.len(),
        ensures
            r == matches_spec(self@.skip(from as int), path_view(path@).skip(at as int)),
        decreases self@.len() - from + path@.len() - at,
    {
        let ghost pattern = self@.skip(from as int);
        let ghost rest = path_view(path@).skip(at as int);
        if from == self.segments.len() {
            return at == path.len();
        }
        if at == path.len() {
            let mut i: usize = from;
            while i < self.segments.len()
                invariant
                    from <= i <= self.segments@.len(),
                    from < self.segments@.len(),
                    at == path@.len(),
                    pattern == self@.skip(from as int),
                    forall|k: int| 0 <= k < i - from ==> #[trigger] pattern[k] is DoubleWildcard,
                decreases self.segments.len() - i,
            {
                match &self.segments[i] {
                    PatternSegment::DoubleWildcard => {},
                    _ => {
                        assert(pattern[i - from] == self.segments@[i as int]@);
                        return false;
                    },
                }
                assert(pattern[i - from] == self.segments@[i as int]@);
                i += 1;
            }
            return true;
        }
        proof {
            assert(pattern[0] == self.segments@[from as int]@);
            assert(rest[0] == path@[at as int]@);
            assert(pattern.drop_first() =~= self@.skip(from + 1));
            assert(rest.drop_first() =~= path_view(path@).skip(at + 1));
        }
        match &self.segments[from] {
            PatternSegment::Literal(text) => {
                if str_eq(text.as_str(), path[at].as_str()) {
                    self.matches_recursive(from + 1, path, at + 1)
                } else {
                    false
                }
            },
            PatternSegment::SingleWildcard => self.matches_recursive(from + 1, path, at + 1),
            PatternSegment::DoubleWildcard => {
                self.matches_recursive(from + 1, path, at) || self.matches_recursive(
                    from,
                    path,
                    at + 1,
                )
            },
        }
    }
}

/// The patterns of a filter.
#[derive(Debug)]
pub struct FilterConfig {
    /// A change whose path one of these matches is left out.
    pub ignore_patterns: Vec<PathPattern>,
    /// Where there are any, only a change whose path one of these matches
    /// is kept.
    pub only_patterns: Vec<PathPattern>,
}

/// The mathematical value of a filter.
pub struct FilterView {
    pub ignore_patterns: Seq<Seq<SegmentView>>,
    pub only_patterns: Seq<Seq<SegmentView>>,
}

/// The values of a list of patterns.
pub open spec fn patterns_view(patterns: Seq<PathPattern>) -> Seq<Seq<SegmentView>> {
    Seq::new(patterns.len(), |i: int| patterns[i]@)
}

impl View for FilterConfig {
    type V = FilterView;

    open spec fn view(&self) -> FilterView {
        FilterView {
            ignore_patterns: patterns_view(self.ignore_patterns@),
            only_patterns: patterns_view(self.only_patterns@),
        }
    }
}

/// Whether one of the patterns matches the path.
pub open spec fn any_matches(patterns: Seq<Seq<SegmentView>>, path: Seq<Seq<char>>) -> bool {
    exists|i: int| 0 <= i < patterns.len() && matches_spec(#[trigger] patterns[i], path)
}

impl FilterView {
    pub open spec fn has_filters(self) -> bool {
        self.ignore_patterns.len() > 0 || self.only_patterns.len() > 0
    }

    /// Whether the filter keeps a path: no ignore pattern matches it, and
    /// where there are only-patterns, one of them does.
    pub open spec fn includes(self, path: Seq<Seq<char>>) -> bool {
        &&& !any_matches(self.ignore_patterns, path)
        &&& (self.only_patterns.len() == 0 || any_matches(self.only_patterns, path))
    }
}

/// The changes that a filter keeps, in their order: all of them where the
/// filter has no pattern.
pub open spec fn kept_changes(changes: Seq<ChangeView>, filter: FilterView) -> Seq<ChangeView> {
    changes.filter(|c: ChangeView| filter.includes(c.path))
}

fn clone_patterns(patterns: &Vec<PathPattern>) -> (r: Vec<PathPattern>)
    ensures
        patterns_view(r@) == patterns_view(patterns@),
{
    let mut out: Vec<PathPattern> = Vec::new();
    let mut i: usize = 0;
    while i < patterns.len()
        invariant
            i <= patterns.len(),
            out@.len() == i,
            forall|k: int| 0 <= k < i ==> (#[trigger] out@[k])@ == patterns@[k]@,
        decreases patterns.len() - i,
    {
        out.push(patterns[i].clone());
        i += 1;
    }
    assert(patterns_view(out@) =~= patterns_view(patterns@));
    out
}

impl Clone for FilterConfig {
    /// An independent copy.
    fn clone(&self) -> (r: FilterConfig)
        ensures
            r@ == self@,
    {
        FilterConfig {
            ignore_patterns: clone_patterns(&self.ignore_patterns),
            only_patterns: clone_patterns(&self.only_patterns),
        }
    }
}

fn matches_any(patterns: &Vec<PathPattern>, path: &[String]) -> (r: bool)
    ensures
        r == any_matches(patterns_view(patterns@), path_view(path@)),
{
    let ghost views = patterns_view(patterns@);
    let mut i: usize = 0;
    while i < patterns.len()
        invariant
            i <= patterns.len(),
            views == patterns_view(patterns@),
            forall|k: int| 0 <= k < i ==> !matches_spec(#[trigger] views[k], path_view(path@)),
        decreases patterns.len() - i,
    {
        assert(views[i as int] == patterns@[i as int]@);
        if patterns[i].matches(path) {
            return true;
        }
        i += 1;
    }
    false
}

impl FilterConfig {
    /// A filter without patterns.
    pub fn new() -> (r: FilterConfig)
        ensures
            r@.ignore_patterns == Seq::<Seq<SegmentView>>::empty(),
            r@.only_patterns == Seq::<Seq<SegmentView>>::empty(),
    {
        let r = FilterConfig { ignore_patterns: Vec::new(), only_patterns: Vec::new() };
        assert(r@.ignore_patterns =~= Seq::<Seq<SegmentView>>::empty());
        assert(r@.only_patterns =~= Seq::<Seq<SegmentView>>::empty());
        r
    }

    /// The filter with one more pattern to ignore.
    pub fn ignore(self, pattern: &str) -> (r: FilterConfig)
        ensures
            r@.ignore_patterns == self@.ignore_patterns.push(parse_spec(pattern@)),
            r@.only_patterns == self@.only_patterns,
    {
        let mut r = self;
        r.ignore_patterns.push(PathPattern::parse(pattern));
        assert(r@.ignore_patterns =~= self@.ignore_patterns.push(parse_spec(pattern@)));
        r
    }

    /// The filter with one more pattern to keep.
    pub fn only(self, pattern: &str) -> (r: FilterConfig)
        ensures
            r@.only_patterns == self@.only_patterns.push(parse_spec(pattern@)),
            r@.ignore_patterns == self@.ignore_patterns,
    {
        let mut r = self;
        r.only_patterns.push(PathPattern::parse(pattern));
        assert(r@.only_patterns =~= self@.only_patterns.push(parse_spec(pattern@)));
        r
    }

    /// Whether the filter has any pattern.
    pub fn has_filters(&self) -> (r: bool)
        ensures
            r == self@.has_filters(),
    {
        self.ignore_patterns.len() > 0 || self.only_patterns.len() > 0
    }

    /// Whether the filter keeps a change at this path.
    pub fn should_include(&self, path: &[String]) -> (r: bool)
        ensures
            r == self@.includes(path_view(path@)),
    {
        if matches_any(&self.ignore_patterns, path) {
            return false;
        }
        if self.only_patterns.len() > 0 {
            return matches_any(&self.only_patterns, path);
        }
        true
    }
}

impl Default for FilterConfig {
    fn default() -> (r: FilterConfig)
        ensures
            r@.ignore_patterns == Seq::<Seq<SegmentView>>::empty(),
            r@.only_patterns == Seq::<Seq<SegmentView>>::empty(),
    {
        FilterConfig::new()
    }
}

/// The diff restricted to the changes that the filter keeps, with its counts
/// taken anew; a filter without patterns gives a copy of the diff as it is.
pub fn filter_diff(diff: &Diff, config: &FilterConfig) -> (r: Diff)
    ensures
        !config@.has_filters() ==> r@ == diff@,
        config@.has_filters() ==> r@.changes == kept_changes(diff@.changes, config@)
            && r@.consistent(),
{
    if !config.has_filters() {
        return diff.clone();
    }
    let ghost all = changes_view(diff.changes@);
    let ghost keep = |c: ChangeView| config@.includes(c.path);
    let mut kept: Vec<Change> = Vec::new();
    let mut i: usize = 0;
    proof {
        assert(all.take(0) =~= Seq::<ChangeView>::empty());
        assert(changes_view(kept@) =~= Seq::<ChangeView>::empty());
        reveal(Seq::filter);
    }
    while i < diff.changes.len()
        invariant
            i <= diff.changes.len(),
            all == changes_view(diff.changes@),
            keep == (|c: ChangeView| config@.includes(c.path)),
            changes_view(kept@) == all.take(i as int).filter(keep),
        decreases diff.changes.len() - i,
    {
        let ghost before = changes_view(kept@);
        proof {
            reveal(Seq::filter);
            assert(all.take(i + 1).drop_last() =~= all.take(i as int));
            assert(all.take(i + 1).last() == diff.changes@[i as int]@);
        }
        if config.should_include(diff.changes[i].path.as_slice()) {
            kept.push(diff.changes[i].clone());
            assert(changes_view(kept@) =~= before.push(diff.changes@[i as int]@));
        }
        i += 1;
    }
    proof {
        assert(all.take(all.len() as int) =~= all);
    }
    let stats = count_changes(&kept);
    Diff { changes: kept, stats }
}

} // verus!
