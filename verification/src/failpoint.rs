//! Failing the Nth matching request to an object store, either before it
//! reaches storage (the write never happened) or after it succeeded (the write
//! happened but the writer never learned). Used to simulate crashes at exact
//! points of a fragment metadata tree commit.

use core::time::Duration;

use vstd::prelude::*;

verus! {

/// Which request class a failpoint targets.
#[derive(Clone, Copy, Debug, PartialEq, Eq, Structural)]
pub enum FailOn {
    /// Any put whose path contains the substring.
    Put,
    /// Only create-only puts (root and transaction publication).
    CreateOnly,
    Get,
    Delete,
}

/// Whether the failure is reported before or after the underlying request.
#[derive(Clone, Copy, Debug, PartialEq, Eq, Structural)]
pub enum FailWhen {
    Before,
    After,
}

#[derive(Debug)]
pub struct Failpoint {
    pub on: FailOn,
    pub when: FailWhen,
    /// Path substring filter, empty matches every path of that class.
    pub path_contains: String,
    /// Fail the Nth matching request, counted from one.
    pub nth: usize,
}

pub struct FailpointView {
    pub on: FailOn,
    pub when: FailWhen,
    pub path_contains: Seq<char>,
    pub nth: usize,
}

impl View for Failpoint {
    type V = FailpointView;

    open spec fn view(&self) -> FailpointView {
        FailpointView {
            on: self.on,
            when: self.when,
            path_contains: self.path_contains@,
            nth: self.nth,
        }
    }
}

/// The failpoint that is armed and how far it has counted.
#[derive(Debug)]
pub struct FailpointController {
    failpoint: Option<Failpoint>,
    matched: usize,
    tripped: bool,
    /// Simulated delay of every read, a stand-in for remote round trips.
    latency: Option<Duration>,
}

pub struct ControllerView {
    pub failpoint: Option<FailpointView>,
    pub matched: usize,
    pub tripped: bool,
    pub latency: Option<Duration>,
}

impl View for FailpointController {
    type V = ControllerView;

    closed spec fn view(&self) -> ControllerView {
        ControllerView {
            failpoint: crate::views::opt(self.failpoint),
            matched: self.matched,
            tripped: self.tripped,
            latency: self.latency,
        }
    }
}

/// Whether a text has another inside it.
pub open spec fn contains_text(text: Seq<char>, part: Seq<char>) -> bool {
    exists|at: int|
        0 <= at <= text.len() - part.len() && #[trigger] text.subrange(at, at + part.len())
            == part
}

fn text_contains(text: &String, part: &String) -> (r: bool)
    ensures
        r == contains_text(text@, part@),
{
    let n: usize = text.as_str().unicode_len();
    let m: usize = part.as_str().unicode_len();
    if m > n {
        return false;
    }
    let mut at: usize = 0;
    loop
        invariant
            m <= n,
            n == text@.len(),
            m == part@.len(),
            at <= n - m,
            forall|k: int| 0 <= k < at ==> #[trigger] text@.subrange(k, k + m) != part@,
        decreases n - m - at,
    {
        let mut i: usize = 0;
        let mut same: bool = true;
        while i < m && same
            invariant
                m <= n,
                n == text@.len(),
                m == part@.len(),
                at <= n - m,
                i <= m,
                same ==> text@.subrange(at as int, at + i) == part@.subrange(0, i as int),
                !same ==> text@.subrange(at as int, at + m) != part@,
            decreases m - i + if same {
                1int
            } else {
                0
            },
        {
            if text.as_str().get_char(at + i) == part.as_str().get_char(i) {
                assert(text@.subrange(at as int, at + i + 1) =~= text@.subrange(
                    at as int,
                    at + i,
                ).push(text@[at + i]));
                assert(part@.subrange(0, i + 1) =~= part@.subrange(0, i as int).push(
                    part@[i as int],
                ));
                i = i + 1;
            } else {
                assert(text@.subrange(at as int, at + m)[i as int] == text@[at + i]);
                same = false;
            }
        }
        if same {
            assert(part@.subrange(0, m as int) =~= part@);
            assert(text@.subrange(at as int, at + part@.len()) == part@);
            return true;
        }
        if at == n - m {
            return false;
        }
        at = at + 1;
    }
}

/// Whether a failpoint of one class targets a request of another.
pub open spec fn targets(armed: FailOn, on: FailOn, create_only: bool) -> bool {
    match armed {
        FailOn::Put => on == FailOn::Put || on == FailOn::CreateOnly,
        FailOn::CreateOnly => on == FailOn::CreateOnly && create_only,
        other => other == on,
    }
}

impl ControllerView {
    /// What a request is told, and what the controller knows afterwards: a
    /// request that the armed failpoint targets is counted, and the Nth one
    /// fails. Once it has fired, the failpoint is done.
    pub open spec fn checked(self, on: FailOn, path: Seq<char>, create_only: bool) -> (
        ControllerView,
        Option<FailWhen>,
    ) {
        match self.failpoint {
            Some(failpoint) => if self.tripped || !targets(failpoint.on, on, create_only)
                || !contains_text(path, failpoint.path_contains) {
                (self, None)
            } else {
                let matched = (self.matched + 1) as usize;
                if matched == failpoint.nth {
                    (ControllerView { matched, tripped: true, ..self }, Some(failpoint.when))
                } else {
                    (ControllerView { matched, ..self }, None)
                }
            },
            None => (self, None),
        }
    }
}

impl Default for FailpointController {
    /// Nothing is armed and nothing delayed.
    fn default() -> (r: Self)
        ensures
            r@ == (ControllerView {
                failpoint: None,
                matched: 0,
                tripped: false,
                latency: None,
            }),
    {
        FailpointController { failpoint: None, matched: 0, tripped: false, latency: None }
    }
}

impl FailpointController {
    pub fn arm(&mut self, failpoint: Failpoint)
        ensures
            final(self)@ == (ControllerView {
                failpoint: Some(failpoint@),
                matched: 0,
                tripped: false,
                ..old(self)@
            }),
    {
        self.failpoint = Some(failpoint);
        self.matched = 0;
        self.tripped = false;
    }

    /// Delay every read, simulating a remote round trip.
    pub fn set_get_latency(&mut self, latency: Duration)
        ensures
            final(self)@ == (ControllerView { latency: Some(latency), ..old(self)@ }),
    {
        self.latency = Some(latency);
    }

    pub fn get_latency(&self) -> (r: Option<Duration>)
        ensures
            r == self@.latency,
    {
        self.latency
    }

    pub fn disarm(&mut self)
        ensures
            final(self)@ == (ControllerView { failpoint: None, ..old(self)@ }),
    {
        self.failpoint = None;
    }

    /// Whether the armed failpoint fired.
    pub fn tripped(&self) -> (r: bool)
        ensures
            r == self@.tripped,
    {
        self.tripped
    }

    /// Requests that the armed failpoint has counted.
    pub fn matched(&self) -> (r: usize)
        ensures
            r == self@.matched,
    {
        self.matched
    }

    /// Decide whether this request must fail, and when.
    pub fn check(&mut self, on: FailOn, path: &String, create_only: bool) -> (r: Option<FailWhen>)
        requires
            old(self)@.matched < usize::MAX,
        ensures
            (final(self)@, r) == old(self)@.checked(on, path@, create_only),
    {
        let (class_matches, path_matches, nth, when) = match &self.failpoint {
            None => {
                return None;
            },
            Some(failpoint) => {
                let class_matches = match failpoint.on {
                    FailOn::Put => on == FailOn::Put || on == FailOn::CreateOnly,
                    FailOn::CreateOnly => on == FailOn::CreateOnly && create_only,
                    other => other == on,
                };
                let path_matches = text_contains(path, &failpoint.path_contains);
                (class_matches, path_matches, failpoint.nth, failpoint.when)
            },
        };
        if self.tripped || !class_matches || !path_matches {
            return None;
        }
        self.matched = self.matched + 1;
        if self.matched == nth {
            self.tripped = true;
            Some(when)
        } else {
            None
        }
    }
}

/// A failpoint fires at most once: after it has, no request fails until
/// another is armed.
pub proof fn law_failpoint_fires_once(
    before: ControllerView,
    on: FailOn,
    path: Seq<char>,
    create_only: bool,
)
    requires
        before.tripped,
    ensures
        before.checked(on, path, create_only) == (before, None::<FailWhen>),
{
}

/// An armed failpoint counts the requests of its class with its text in their
/// path, fails the one whose turn it is in the way it is armed for, and leaves
/// every other request alone.
pub proof fn law_failpoint_fails_the_request_it_waits_for(
    before: ControllerView,
    armed: FailpointView,
    on: FailOn,
    path: Seq<char>,
    create_only: bool,
)
    requires
        before.failpoint == Some(armed),
        !before.tripped,
        before.matched < usize::MAX,
    ensures
        ({
            let (after, told) = before.checked(on, path, create_only);
            let class = match armed.on {
                FailOn::Put => on is Put || on is CreateOnly,
                FailOn::CreateOnly => on is CreateOnly && create_only,
                FailOn::Get => on is Get,
                FailOn::Delete => on is Delete,
            };
            let named = exists|at: int|
                0 <= at <= path.len() - armed.path_contains.len() && #[trigger] path.subrange(
                    at,
                    at + armed.path_contains.len(),
                ) == armed.path_contains;
            &&& after.failpoint == before.failpoint
            &&& after.latency == before.latency
            &&& if class && named {
                &&& after.matched == before.matched + 1
                &&& after.tripped == (after.matched == armed.nth)
                &&& told == if after.tripped {
                    Some(armed.when)
                } else {
                    None
                }
            } else {
                after == before && told is None
            }
        }),
{
}

/// Nothing fails while nothing is armed.
pub proof fn law_nothing_fails_unarmed(
    before: ControllerView,
    on: FailOn,
    path: Seq<char>,
    create_only: bool,
)
    requires
        before.failpoint is None,
    ensures
        before.checked(on, path, create_only) == (before, None::<FailWhen>),
{
}

} // verus!
