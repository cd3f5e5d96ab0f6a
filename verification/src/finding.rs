//! A finding: the path of lines along which tainted data reaches a sink.
use vstd::prelude::*;

verus! {

/// Tainted data that reaches a sink.
#[derive(Debug)]
pub struct Finding {
    /// The vulnerability class.
    pub vuln: String,
    /// Line numbers from the source, through each propagation, to the sink.
    pub path: Vec<usize>,
}

/// A finding as a mathematical value.
#[verifier::ext_equal]
pub struct FindingView {
    pub vuln: Seq<char>,
    pub path: Seq<nat>,
}

/// Line numbers as natural numbers.
pub open spec fn nats(v: Seq<usize>) -> Seq<nat> {
    v.map_values(|n: usize| n as nat)
}

impl View for Finding {
    type V = FindingView;

    open spec fn view(&self) -> FindingView {
        FindingView { vuln: self.vuln@, path: nats(self.path@) }
    }
}

/// The findings that a vector holds.
pub open spec fn finding_views(v: Seq<Finding>) -> Seq<FindingView> {
    v.map_values(|f: Finding| f@)
}

impl Clone for Finding {
    fn clone(&self) -> (r: Finding)
        ensures
            r@ == self@,
    {
        let path = self.path.clone();
        assert(path@ =~= self.path@);
        Finding { vuln: self.vuln.clone(), path }
    }
}

impl Finding {
    /// The line of the source; zero if the path is empty.
    pub fn source_line(&self) -> (r: usize)
        ensures
            self@.path.len() > 0 ==> r == self@.path.first(),
            self@.path.len() == 0 ==> r == 0,
    {
        if self.path.len() > 0 {
            self.path[0]
        } else {
            0
        }
    }

    /// The line of the sink; zero if the path is empty.
    pub fn sink_line(&self) -> (r: usize)
        ensures
            self@.path.len() > 0 ==> r == self@.path.last(),
            self@.path.len() == 0 ==> r == 0,
    {
        if self.path.len() > 0 {
            self.path[self.path.len() - 1]
        } else {
            0
        }
    }
}

} // verus!
