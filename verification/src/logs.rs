use vstd::prelude::*;
use vstd::string::{StrSliceExecFns, StringExecFns};
use crate::util::dec_digits;

verus! {

/// The pattern occurs in `s` starting at position `i`.
pub open spec fn match_at(s: Seq<char>, pat: Seq<char>, i: int) -> bool {
    0 <= i && i + pat.len() <= s.len() && s.subrange(i, i + pat.len()) == pat
}

/// The pattern occurs somewhere in `s`.
pub open spec fn contains_pattern(s: Seq<char>, pat: Seq<char>) -> bool {
    exists|i: int| match_at(s, pat, i)
}

/// How many times the pattern occurs in `s` from position `i` on, counting
/// matches left to right and resuming after each one (non-overlapping).
pub open spec fn count_matches(s: Seq<char>, pat: Seq<char>, i: int) -> nat
    decreases s.len() + pat.len() - i,
{
    if pat.len() == 0 || i + pat.len() > s.len() || i < 0 {
        0
    } else if match_at(s, pat, i) {
        1 + count_matches(s, pat, i + pat.len())
    } else {
        count_matches(s, pat, i + 1)
    }
}

/// Whether the pattern occurs in `hay` starting exactly at `i`.
fn check_match_at(hay: &str, pat: &str, i: usize) -> (res: bool)
    requires
        i + pat@.len() <= hay@.len(),
        hay@.len() <= usize::MAX,
    ensures
        res == match_at(hay@, pat@, i as int),
{
    let m = pat.unicode_len();
    let mut j: usize = 0;
    while j < m
        invariant
            j <= m,
            m == pat@.len(),
            i + m <= hay@.len(),
            hay@.len() <= usize::MAX,
            forall|k: int| 0 <= k < j ==> hay@[i + k] == pat@[k],
        decreases m - j,
    {
        if hay.get_char(i + j) != pat.get_char(j) {
            proof {
                assert(hay@.subrange(i as int, i + pat@.len())[j as int] != pat@[j as int]);
            }
            return false;
        }
        j = j + 1;
    }
    proof {
        assert(hay@.subrange(i as int, i + pat@.len()) =~= pat@);
    }
    true
}

/// How many times the pattern occurs in `hay` (non-overlapping, counted
/// left to right).
fn count_occurrences(hay: &str, pat: &str) -> (count: usize)
    requires
        pat@.len() > 0,
    ensures
        count == count_matches(hay@, pat@, 0),
{
    let n = hay.unicode_len();
    let m = pat.unicode_len();
    if m > n {
        return 0;
    }
    let mut count: usize = 0;
    let mut i: usize = 0;
    while i <= n - m
        invariant
            m == pat@.len(),
            n == hay@.len(),
            m > 0,
            m <= n,
            count <= i,
            count_matches(hay@, pat@, 0) == count + count_matches(hay@, pat@, i as int),
        decreases n - i,
    {
        if check_match_at(hay, pat, i) {
            count = count + 1;
            i = i + m;
        } else {
            i = i + 1;
        }
    }
    count
}

/// Whether the pattern occurs anywhere in `hay`.
fn contains_substring(hay: &str, pat: &str) -> (present: bool)
    requires
        pat@.len() > 0,
    ensures
        present == contains_pattern(hay@, pat@),
{
    let n = hay.unicode_len();
    let m = pat.unicode_len();
    if m > n {
        proof {
            assert forall|j: int| !match_at(hay@, pat@, j) by {}
        }
        return false;
    }
    let mut i: usize = 0;
    while i <= n - m
        invariant
            m == pat@.len(),
            n == hay@.len(),
            m > 0,
            m <= n,
            forall|j: int| 0 <= j < i ==> !match_at(hay@, pat@, j),
        decreases n - i,
    {
        if check_match_at(hay, pat, i) {
            return true;
        }
        i = i + 1;
    }
    proof {
        assert forall|j: int| !match_at(hay@, pat@, j) by {
            if match_at(hay@, pat@, j) {
                assert(0 <= j && j + pat@.len() <= hay@.len());
                assert(j < i);
            }
        }
    }
    false
}

/// A simple log analyzer counting errors and panics in node and client
/// logs. An error is an occurrence of ` ERROR`; a panic an occurrence of
/// `panic`.
pub struct LogsAnalyzer {
    /// The number of errors in the nodes' log files.
    pub node_errors: usize,
    /// Whether a node panicked.
    pub node_panic: bool,
    /// The number of errors in the clients' log files.
    pub client_errors: usize,
    /// Whether a client panicked.
    pub client_panic: bool,
}

impl Default for LogsAnalyzer {
    fn default() -> (analyzer: LogsAnalyzer)
        ensures
            analyzer.node_errors == 0,
            !analyzer.node_panic,
            analyzer.client_errors == 0,
            !analyzer.client_panic,
    {
        LogsAnalyzer { node_errors: 0, node_panic: false, client_errors: 0, client_panic: false }
    }
}

impl LogsAnalyzer {
    /// Deduce the number of node errors from a node's log.
    pub fn set_node_errors(&mut self, log: &str)
        ensures
            final(self).node_errors == count_matches(log@, " ERROR"@, 0),
            final(self).node_panic == contains_pattern(log@, "panic"@),
            final(self).client_errors == old(self).client_errors,
            final(self).client_panic == old(self).client_panic,
    {
        proof {
            reveal_strlit(" ERROR");
            reveal_strlit("panic");
        }
        self.node_errors = count_occurrences(log, " ERROR");
        self.node_panic = contains_substring(log, "panic");
    }

    /// Deduce the number of client errors from a client's log, keeping the
    /// worst count seen so far.
    pub fn set_client_errors(&mut self, log: &str)
        ensures
            final(self).client_errors == if count_matches(log@, " ERROR"@, 0)
                > old(self).client_errors {
                count_matches(log@, " ERROR"@, 0)
            } else {
                old(self).client_errors as nat
            },
            final(self).client_panic == contains_pattern(log@, "panic"@),
            final(self).node_errors == old(self).node_errors,
            final(self).node_panic == old(self).node_panic,
    {
        proof {
            reveal_strlit(" ERROR");
            reveal_strlit("panic");
        }
        let errors = count_occurrences(log, " ERROR");
        if errors > self.client_errors {
            self.client_errors = errors;
        }
        self.client_panic = contains_substring(log, "panic");
    }

    /// The summary line describing the errors, if there is anything to
    /// report: panics dominate, then the error counts.
    pub fn summary(&self) -> (message: Option<String>)
        ensures
            message matches Some(m) ==> if self.node_panic {
                m@ == "Node(s) panicked!"@
            } else if self.client_panic {
                m@ == "Client(s) panicked!"@
            } else {
                m@ == "Logs contain errors (node: "@ + dec_digits(self.node_errors as nat)
                    + ", client: "@ + dec_digits(self.client_errors as nat) + ")"@
            },
            message is None <==> !self.node_panic && !self.client_panic && self.node_errors == 0
                && self.client_errors == 0,
    {
        if self.node_panic {
            Some("Node(s) panicked!".to_owned())
        } else if self.client_panic {
            Some("Client(s) panicked!".to_owned())
        } else if self.node_errors != 0 || self.client_errors != 0 {
            let mut message = "Logs contain errors (node: ".to_owned();
            let node = crate::util::u64_to_string(self.node_errors as u64);
            message.append(node.as_str());
            message.append(", client: ");
            let client = crate::util::u64_to_string(self.client_errors as u64);
            message.append(client.as_str());
            message.append(")");
            Some(message)
        } else {
            None
        }
    }
}

} // verus!
