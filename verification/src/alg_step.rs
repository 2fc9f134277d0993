//! Steps of convex hull algorithms as they are recorded in logs.

use vstd::prelude::*;

use crate::vertex::VertexId;

verus! {

/// The text that the group named `group` captures in the leftmost match of
/// the regular expression `pattern` in `line`; `None` when the pattern is
/// not a valid expression, does not match, or the group takes no part in
/// the match.
pub uninterp spec fn regex_capture(pattern: Seq<char>, line: Seq<char>, group: Seq<char>) -> Option<Seq<char>>;

/// Compiles `pattern` with `regex::Regex::new` and returns what the named
/// group captures in the leftmost match of `Regex::captures` on `line`. The
/// contract ties the result to `regex_capture` of the three arguments: the
/// regex crate's matching is a function of them alone.
#[verifier::external_body]
fn capture_named(pattern: &str, line: &str, group: &str) -> (r: Option<String>)
    ensures
        match r {
            Some(c) => regex_capture(pattern@, line@, group@) == Some(c@),
            None => regex_capture(pattern@, line@, group@) is None,
        },
{
    let re = regex::Regex::new(pattern).ok()?;
    let caps = re.captures(line)?;
    caps.name(group).map(|m| m.as_str().to_string())
}

/// The pattern of a log line that records a step: the level `DEBUG`, the
/// source in square brackets, one word, then the step itself in the group
/// `data`.
pub open spec fn step_line_pattern() -> Seq<char> {
    "DEBUG \\[.*\\] \\w+ (?<data>.*)"@
}

/// The recorded step that a log line carries, if it is a step line: the
/// text after the level `DEBUG`, the bracketed source and one word.
pub fn step_data(line: &str) -> (r: Option<String>)
    ensures
        match r {
            Some(c) => regex_capture(step_line_pattern(), line@, "data"@) == Some(c@),
            None => regex_capture(step_line_pattern(), line@, "data"@) is None,
        },
{
    capture_named("DEBUG \\[.*\\] \\w+ (?<data>.*)", line, "data")
}

/// One recorded step of the Graham scan: its number, the vertex it visits
/// and the hull stack after it.
#[derive(Debug, Default)]
pub struct GrahamScanStep {
    pub idx: usize,
    pub new_id: Option<VertexId>,
    pub hull_ids: Vec<VertexId>,
}

impl GrahamScanStep {
    /// The top `num_elements` identifiers of the hull stack, from the lowest
    /// of them to the top.
    pub fn hull_tail(&self, num_elements: usize) -> (r: Vec<VertexId>)
        requires
            num_elements <= self.hull_ids@.len(),
        ensures
            r@ == self.hull_ids@.subrange(self.hull_ids@.len() - num_elements, self.hull_ids@.len() as int),
    {
        let n = self.hull_ids.len();
        let mut r: Vec<VertexId> = Vec::new();
        let mut k: usize = n - num_elements;
        while k < n
            invariant
                n == self.hull_ids@.len(),
                num_elements <= n,
                n - num_elements <= k <= n,
                r@ == self.hull_ids@.subrange(n - num_elements, k as int),
            decreases n - k,
        {
            r.push(self.hull_ids[k]);
            k = k + 1;
            assert(r@ =~= self.hull_ids@.subrange(n - num_elements, k as int));
        }
        r
    }

    /// The identifier on top of the hull stack.
    pub fn hull_top(&self) -> (r: VertexId)
        requires
            self.hull_ids@.len() > 0,
        ensures
            r == self.hull_ids@.last(),
    {
        self.hull_ids[self.hull_ids.len() - 1]
    }
}

/// One recorded step of the incremental algorithm: its number, the vertex it
/// adds, the upper and lower tangent vertices found for it, and the hull
/// after it.
#[derive(Debug, Default)]
pub struct IncrementalStep {
    pub idx: usize,
    pub new_id: Option<VertexId>,
    pub ut_id: Option<VertexId>,
    pub lt_id: Option<VertexId>,
    pub hull_ids: Vec<VertexId>,
}

} // verus!
