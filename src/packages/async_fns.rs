use vstd::prelude::*;

use crate::debversion::{string_of, version_text};
use crate::packages::{PackageError, PackageModel, Packages, id_of, opt_text, push_str};

verus! {

/// The checksum service used until another is set.
pub open spec fn default_server() -> Seq<char> {
    "ece459.patricklam.ca:4590"@
}

/// The address of the checksum of `package` at `version` on `server`.
pub open spec fn verify_url(server: Seq<char>, package: Seq<char>, version: Seq<char>) -> Seq<
    char,
> {
    "http://"@ + server + "/rest/v1/checksums/"@ + package + "/"@ + version
}

/// A queued checksum request.
pub struct Request {
    pub package_name: String,
    pub version: String,
    pub url: String,
}

/// What came back for one request.
pub enum Response {
    /// The server answered with this status and body.
    Http { code: u32, body: String },
    /// The request failed before any answer.
    Transport { message: String },
}

/// The result of one request, reported in enqueue order.
pub enum VerifyOutcome {
    /// A 2xx answer; whether its body equals the recorded checksum.
    Verified { package_name: String, version: String, matches: bool },
    /// Any other status.
    HttpError { package_name: String, version: String, code: u32 },
    /// No answer.
    TransportError { package_name: String, version: String, message: String },
}

/// The dispatcher's state: the server for new requests and the queue.
pub struct AsyncState {
    pub(crate) server: String,
    pub(crate) request_queue: Vec<Request>,
}

/// The checksum recorded for the package called `name`, if any.
pub open spec fn recorded_md5(m: Seq<PackageModel>, name: Seq<char>) -> Option<Seq<char>> {
    match id_of(m, name) {
        Some(i) => m[i].md5sum,
        None => None,
    }
}

/// `out` reports `resp` for request `req`.
pub open spec fn outcome_for(
    m: Seq<PackageModel>,
    req: Request,
    resp: Response,
    out: VerifyOutcome,
) -> bool {
    match resp {
        Response::Http { code, body } => if 200 <= code < 300 {
            out matches VerifyOutcome::Verified { package_name, version, matches } && package_name@
                == req.package_name@ && version@ == req.version@ && matches == (recorded_md5(
                m,
                req.package_name@,
            ) == Some(body@))
        } else {
            out matches VerifyOutcome::HttpError { package_name, version, code: c } && package_name@
                == req.package_name@ && version@ == req.version@ && c == code
        },
        Response::Transport { message } => out matches VerifyOutcome::TransportError {
            package_name,
            version,
            message: msg,
        } && package_name@ == req.package_name@ && version@ == req.version@ && msg@ == message@,
    }
}

impl AsyncState {
    /// The server that new requests go to.
    pub open(crate) spec fn server_text(&self) -> Seq<char> {
        self.server@
    }

    /// The requests waiting, in enqueue order.
    pub open(crate) spec fn requests(&self) -> Seq<Request> {
        self.request_queue@
    }

    pub fn new() -> (r: AsyncState)
        ensures
            r.server_text() == default_server(),
            r.requests().len() == 0,
    {
        AsyncState { server: "ece459.patricklam.ca:4590".to_owned(), request_queue: Vec::new() }
    }
}

fn url_for(server: &str, pkg: &str, version: &str) -> (r: String)
    ensures
        r@ == verify_url(server@, pkg@, version@),
{
    let mut out: Vec<char> = Vec::new();
    push_str(&mut out, "http://");
    push_str(&mut out, server);
    push_str(&mut out, "/rest/v1/checksums/");
    push_str(&mut out, pkg);
    push_str(&mut out, "/");
    push_str(&mut out, version);
    proof {
        assert(out@ =~= verify_url(server@, pkg@, version@));
    }
    string_of(&out)
}

impl Packages {
    /// The server that new requests go to.
    pub open(crate) spec fn server(&self) -> Seq<char> {
        self.async_state.server@
    }

    /// The requests waiting for `execute`, in enqueue order.
    pub open(crate) spec fn queue(&self) -> Seq<Request> {
        self.async_state.request_queue@
    }

    /// Sets the server for the requests enqueued from now on; those already
    /// queued keep theirs.
    pub fn set_server(&mut self, new_server: &str)
        ensures
            final(self).server() == new_server@,
            final(self).queue() == old(self).queue(),
            final(self).model() == old(self).model(),
    {
        self.async_state.server = new_server.to_owned();
    }

    /// Queues a request for the checksum of `pkg` at `version`.
    pub fn enq_verify_with_version(&mut self, pkg: &str, version: &str)
        ensures
            final(self).server() == old(self).server(),
            final(self).model() == old(self).model(),
            final(self).queue().len() == old(self).queue().len() + 1,
            forall|i: int|
                0 <= i < old(self).queue().len() ==> #[trigger] final(self).queue()[i] == old(
                    self,
                ).queue()[i],
            ({
                let q = final(self).queue().last();
                &&& q.package_name@ == pkg@
                &&& q.version@ == version@
                &&& q.url@ == verify_url(old(self).server(), pkg@, version@)
            }),
    {
        let url = url_for(self.async_state.server.as_str(), pkg, version);
        self.async_state.request_queue.push(
            Request { package_name: pkg.to_owned(), version: version.to_owned(), url },
        );
    }

    /// Queues a request for the checksum of `pkg` at its available version.
    /// Nothing is queued when `pkg` is unknown or has no available version.
    pub fn enq_verify(&mut self, pkg: &str) -> (r: Result<(), PackageError>)
        requires
            old(self).wf(),
        ensures
            final(self).wf(),
            final(self).server() == old(self).server(),
            final(self).model() == old(self).model(),
            match id_of(old(self).model(), pkg@) {
                None => r == Err::<(), PackageError>(PackageError::NotFound) && final(self).queue()
                    == old(self).queue(),
                Some(i) => match old(self).model()[i].available {
                    None => r == Err::<(), PackageError>(PackageError::NoVersion)
                        && final(self).queue() == old(self).queue(),
                    Some(v) => {
                        &&& r is Ok
                        &&& final(self).queue().len() == old(self).queue().len() + 1
                        &&& forall|j: int|
                            0 <= j < old(self).queue().len() ==> #[trigger] final(self).queue()[j]
                                == old(self).queue()[j]
                        &&& final(self).queue().last().package_name@ == pkg@
                        &&& final(self).queue().last().version@ == version_text(v)
                        &&& final(self).queue().last().url@ == verify_url(
                            old(self).server(),
                            pkg@,
                            version_text(v),
                        )
                    },
                },
            },
    {
        let vs = match self.find(pkg) {
            None => {
                return Err(PackageError::NotFound);
            },
            Some(i) => match &self.packages[i].available {
                None => {
                    return Err(PackageError::NoVersion);
                },
                Some(v) => v.to_string(),
            },
        };
        self.enq_verify_with_version(pkg, vs.as_str());
        Ok(())
    }

    /// The queued requests, in enqueue order.
    pub fn pending_requests(&self) -> (r: &Vec<Request>)
        ensures
            r@ == self.queue(),
    {
        &self.async_state.request_queue
    }

    /// The checksum recorded for `name`, compared with `body`.
    fn md5_matches(&self, name: &String, body: &String) -> (r: bool)
        requires
            self.wf(),
        ensures
            r == (recorded_md5(self.model(), name@) == Some(body@)),
    {
        match self.find(name.as_str()) {
            None => false,
            Some(i) => match &self.packages[i].md5sum {
                None => false,
                Some(m) => {
                    let eq = *m == *body;
                    proof {
                        assert(self.model()[i as int].md5sum == Some(m@));
                    }
                    eq
                },
            },
        }
    }

    /// Reports the answers to the queued requests, `responses[i]` being the
    /// answer to the `i`-th: a 2xx answer is checked against the recorded
    /// checksum, any other is reported as an error. Empties the queue.
    pub fn execute(&mut self, responses: Vec<Response>) -> (r: Vec<VerifyOutcome>)
        requires
            old(self).wf(),
            responses@.len() == old(self).queue().len(),
        ensures
            final(self).wf(),
            final(self).server() == old(self).server(),
            final(self).model() == old(self).model(),
            final(self).queue().len() == 0,
            r@.len() == responses@.len(),
            forall|i: int|
                0 <= i < r@.len() ==> outcome_for(
                    old(self).model(),
                    old(self).queue()[i],
                    responses@[i],
                    #[trigger] r@[i],
                ),
    {
        let mut out: Vec<VerifyOutcome> = Vec::new();
        let mut i: usize = 0;
        while i < responses.len()
            invariant
                *self == *old(self),
                self.wf(),
                responses@.len() == self.queue().len(),
                i <= responses.len(),
                out@.len() == i,
                forall|j: int|
                    0 <= j < i ==> outcome_for(
                        self.model(),
                        self.queue()[j],
                        responses@[j],
                        #[trigger] out@[j],
                    ),
            decreases responses.len() - i,
        {
            let req = &self.async_state.request_queue[i];
            let package_name = req.package_name.clone();
            let version = req.version.clone();
            let o = match &responses[i] {
                Response::Http { code, body } => {
                    if 200 <= *code && *code < 300 {
                        let matches = self.md5_matches(&req.package_name, body);
                        VerifyOutcome::Verified { package_name, version, matches }
                    } else {
                        VerifyOutcome::HttpError { package_name, version, code: *code }
                    }
                },
                Response::Transport { message } => VerifyOutcome::TransportError {
                    package_name,
                    version,
                    message: message.clone(),
                },
            };
            out.push(o);
            i = i + 1;
        }
        self.async_state.request_queue = Vec::new();
        out
    }
}

} // verus!
